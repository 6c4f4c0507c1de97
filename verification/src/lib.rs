//! A replicated, conflict-free document store: the data model of operations
//! and changes, the causal history of changes, the operation set that a
//! document is materialised from, and the backend that ties them together.

pub mod order;
pub mod ids;
pub mod value;
pub mod request;
pub mod error;
pub mod change;
pub mod seqs;
pub mod document;
pub mod patch;
pub mod doc_laws;
pub mod history;
pub mod model;
pub mod backend;
pub mod laws;

pub use backend::Backend;
pub use change::{Change, OpType, Operation};
pub use document::{AppliedOp, Document, Path};
pub use error::AutomergeError;
pub use patch::{Conflict, ListPatch, Patch, PatchValue, PropPatch};
pub use history::{Clock, ClockEntry, History, Recorded, Standing};
pub use ids::{ActorID, ChangeHash, DataType, ElementID, Key, ObjType, ObjectID, OpID};
pub use order::Rank;
pub use request::{OpRequest, ReqOpType, RequestKey};
pub use value::Value;
