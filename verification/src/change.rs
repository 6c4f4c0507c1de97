//! Operations and changes.
//!
//! An operation is one edit. A change is the ordered batch of operations that
//! one actor issued together, with the changes it was made on top of. The
//! k-th operation of a change has the identifier whose counter is the
//! change's `start_op` plus k and whose actor is the change's actor.

use crate::ids::{ActorID, ChangeHash, DataType, Key, KeyView, ObjType, ObjectID, ObjectIdView, OpID, OpIdView};
use crate::value::{opt_value_view, Value, ValueView};
use vstd::prelude::*;

verus! {

/// What an operation does.
#[derive(Clone, Copy, Debug, PartialEq, Eq, Structural)]
pub enum OpType {
    MakeMap,
    MakeTable,
    MakeList,
    MakeText,
    Assign,
    Del,
    Inc,
    Link,
}

impl OpType {
    /// The container kind that the action makes, if it makes one.
    pub open spec fn made(self) -> Option<ObjType> {
        match self {
            OpType::MakeMap => Some(ObjType::Dict),
            OpType::MakeTable => Some(ObjType::Table),
            OpType::MakeList => Some(ObjType::List),
            OpType::MakeText => Some(ObjType::Text),
            _ => None,
        }
    }

    /// The action puts a value into a slot.
    pub open spec fn writes(self) -> bool {
        self != OpType::Del && self != OpType::Inc
    }

    /// The action takes its predecessors out of their conflict set.
    pub open spec fn retires(self) -> bool {
        self != OpType::Inc
    }

    /// The container kind that the action makes, if it makes one.
    pub fn makes(&self) -> (r: Option<ObjType>)
        ensures
            r == self.made(),
    {
        match self {
            OpType::MakeMap => Some(ObjType::Dict),
            OpType::MakeTable => Some(ObjType::Table),
            OpType::MakeList => Some(ObjType::List),
            OpType::MakeText => Some(ObjType::Text),
            _ => None,
        }
    }

    /// Whether the action puts a value into a slot.
    pub fn is_write(&self) -> (b: bool)
        ensures
            b == self.writes(),
    {
        match self {
            OpType::Del => false,
            OpType::Inc => false,
            _ => true,
        }
    }

    /// Whether the action takes its predecessors out of their conflict set.
    pub fn is_retiring(&self) -> (b: bool)
        ensures
            b == self.retires(),
    {
        match self {
            OpType::Inc => false,
            _ => true,
        }
    }
}

/// The views of a sequence of operation identifiers.
pub open spec fn opids_view(v: Seq<OpID>) -> Seq<OpIdView> {
    v.map_values(|id: OpID| id@)
}

/// The view of an optional container identifier.
pub open spec fn opt_object_view(v: Option<ObjectID>) -> Option<ObjectIdView> {
    match v {
        Some(x) => Some(x@),
        None => None,
    }
}

/// The view of an optional string.
pub open spec fn opt_string_view(v: Option<String>) -> Option<Seq<char>> {
    match v {
        Some(x) => Some(x@),
        None => None,
    }
}

/// Whether `id` is among `v`.
pub fn contains_opid(v: &Vec<OpID>, id: &OpID) -> (b: bool)
    ensures
        b == opids_view(v@).contains(id@),
{
    let mut i: usize = 0;
    while i < v.len()
        invariant
            i <= v.len(),
            forall|j: int| 0 <= j < i ==> opids_view(v@)[j] != id@,
        decreases v.len() - i,
    {
        if v[i].same(id) {
            assert(opids_view(v@)[i as int] == id@);
            return true;
        }
        i = i + 1;
    }
    false
}

/// A copy of a list of operation identifiers.
pub fn duplicate_opids(v: &Vec<OpID>) -> (r: Vec<OpID>)
    ensures
        opids_view(r@) == opids_view(v@),
{
    let mut r: Vec<OpID> = Vec::new();
    let mut i: usize = 0;
    while i < v.len()
        invariant
            i <= v.len(),
            r.len() == i,
            forall|j: int| 0 <= j < i ==> r[j]@ == v[j]@,
        decreases v.len() - i,
    {
        r.push(v[i].duplicate());
        i = i + 1;
    }
    assert(opids_view(r@) =~= opids_view(v@));
    r
}

/// A copy of a list of hashes.
pub fn duplicate_hashes(v: &Vec<ChangeHash>) -> (r: Vec<ChangeHash>)
    ensures
        r@ == v@,
{
    let mut r: Vec<ChangeHash> = Vec::new();
    let mut i: usize = 0;
    while i < v.len()
        invariant
            i <= v.len(),
            r.len() == i,
            forall|j: int| 0 <= j < i ==> r[j] == v[j],
        decreases v.len() - i,
    {
        r.push(v[i]);
        i = i + 1;
    }
    assert(r@ =~= v@);
    r
}

/// What an `Operation` is in contracts.
pub struct OperationView {
    pub action: OpType,
    pub object: ObjectIdView,
    pub key: KeyView,
    pub value: Option<ValueView>,
    pub datatype: Option<DataType>,
    pub insert: bool,
    pub pred: Seq<OpIdView>,
    pub child: Option<ObjectIdView>,
}

/// One edit of the document.
#[derive(Clone, Debug, PartialEq)]
pub struct Operation {
    pub action: OpType,
    /// The container that is edited.
    pub object: ObjectID,
    /// The slot that is edited; for an insertion, the element to insert after.
    pub key: Key,
    pub value: Option<Value>,
    pub datatype: Option<DataType>,
    /// Whether the operation makes a new list element.
    pub insert: bool,
    /// The operations whose values this one overwrites, deletes or increments.
    pub predecessors: Vec<OpID>,
    /// The container that a `Link` points at.
    pub child: Option<ObjectID>,
}

impl View for Operation {
    type V = OperationView;

    open spec fn view(&self) -> OperationView {
        OperationView {
            action: self.action,
            object: self.object@,
            key: self.key@,
            value: opt_value_view(self.value),
            datatype: self.datatype,
            insert: self.insert,
            pred: opids_view(self.predecessors@),
            child: opt_object_view(self.child),
        }
    }
}

impl Operation {
    /// A copy that holds the same value.
    pub fn duplicate(&self) -> (r: Operation)
        ensures
            r@ == self@,
    {
        Operation {
            action: self.action,
            object: self.object.duplicate(),
            key: self.key.duplicate(),
            value: match &self.value {
                Some(v) => Some(v.duplicate()),
                None => None,
            },
            datatype: self.datatype,
            insert: self.insert,
            predecessors: duplicate_opids(&self.predecessors),
            child: match &self.child {
                Some(c) => Some(c.duplicate()),
                None => None,
            },
        }
    }
}

/// The views of a sequence of operations.
pub open spec fn operations_view(v: Seq<Operation>) -> Seq<OperationView> {
    v.map_values(|op: Operation| op@)
}

/// What a `Change` is in contracts.
pub struct ChangeView {
    pub hash: ChangeHash,
    pub actor: Seq<char>,
    pub seq: u64,
    pub start_op: u64,
    pub timestamp: i64,
    pub message: Option<Seq<char>>,
    pub deps: Seq<ChangeHash>,
    pub ops: Seq<OperationView>,
}

/// A batch of operations by one actor.
#[derive(Clone, Debug, PartialEq)]
pub struct Change {
    /// The identity of the change, which stands for its content.
    pub hash: ChangeHash,
    pub actor: ActorID,
    /// The number of this change among its actor's changes, from 1.
    pub seq: u64,
    /// The counter of the first operation.
    pub start_op: u64,
    pub timestamp: i64,
    pub message: Option<String>,
    /// The changes that this one was made on top of.
    pub dependencies: Vec<ChangeHash>,
    pub operations: Vec<Operation>,
}

impl View for Change {
    type V = ChangeView;

    open spec fn view(&self) -> ChangeView {
        ChangeView {
            hash: self.hash,
            actor: self.actor@,
            seq: self.seq,
            start_op: self.start_op,
            timestamp: self.timestamp,
            message: opt_string_view(self.message),
            deps: self.dependencies@,
            ops: operations_view(self.operations@),
        }
    }
}

impl Change {
    /// A copy that holds the same value.
    pub fn duplicate(&self) -> (r: Change)
        ensures
            r@ == self@,
    {
        let mut ops: Vec<Operation> = Vec::new();
        let mut i: usize = 0;
        while i < self.operations.len()
            invariant
                i <= self.operations.len(),
                ops.len() == i,
                forall|j: int| 0 <= j < i ==> ops[j]@ == self.operations[j]@,
            decreases self.operations.len() - i,
        {
            ops.push(self.operations[i].duplicate());
            i = i + 1;
        }
        assert(operations_view(ops@) =~= operations_view(self.operations@));
        Change {
            hash: self.hash,
            actor: self.actor.duplicate(),
            seq: self.seq,
            start_op: self.start_op,
            timestamp: self.timestamp,
            message: match &self.message {
                Some(m) => Some(m.clone()),
                None => None,
            },
            dependencies: duplicate_hashes(&self.dependencies),
            operations: ops,
        }
    }
}

/// The views of a sequence of changes.
pub open spec fn changes_view(v: Seq<Change>) -> Seq<ChangeView> {
    v.map_values(|c: Change| c@)
}

/// A copy of a list of changes.
pub fn duplicate_changes(v: &Vec<Change>) -> (r: Vec<Change>)
    ensures
        changes_view(r@) == changes_view(v@),
{
    let mut r: Vec<Change> = Vec::new();
    let mut i: usize = 0;
    while i < v.len()
        invariant
            i <= v.len(),
            r.len() == i,
            forall|j: int| 0 <= j < i ==> r[j]@ == v[j]@,
        decreases v.len() - i,
    {
        r.push(v[i].duplicate());
        i = i + 1;
    }
    assert(changes_view(r@) =~= changes_view(v@));
    r
}

} // verus!
