//! The requests that a frontend hands in: one intended operation, before it
//! has an identifier.

use crate::ids::{DataType, ObjType};
use crate::value::{opt_value_view, value_to_i64, Value, ValueView};
use vstd::prelude::*;

verus! {

/// What a `RequestKey` is in contracts.
pub enum RequestKeyView {
    Str(Seq<char>),
    Num(u64),
}

/// The key of a request: a property name, or an index into a sequence.
#[derive(Clone, Debug, PartialEq)]
pub enum RequestKey {
    Str(String),
    Num(u64),
}

impl View for RequestKey {
    type V = RequestKeyView;

    open spec fn view(&self) -> RequestKeyView {
        match self {
            RequestKey::Str(s) => RequestKeyView::Str(s@),
            RequestKey::Num(n) => RequestKeyView::Num(*n),
        }
    }
}

/// What a request asks for.
#[derive(Clone, Copy, Debug, PartialEq, Eq, Structural)]
pub enum ReqOpType {
    MakeMap,
    MakeTable,
    MakeList,
    MakeText,
    Del,
    Link,
    Inc,
    Assign,
}

/// One requested operation.
#[derive(Clone, Debug, PartialEq)]
pub struct OpRequest {
    pub action: ReqOpType,
    pub obj: String,
    pub key: RequestKey,
    pub child: Option<String>,
    pub value: Option<Value>,
    pub datatype: Option<DataType>,
    pub insert: bool,
}

/// The container kind that an action makes, if it makes one.
pub open spec fn made_type(action: ReqOpType) -> Option<ObjType> {
    match action {
        ReqOpType::MakeMap => Some(ObjType::Dict),
        ReqOpType::MakeTable => Some(ObjType::Table),
        ReqOpType::MakeList => Some(ObjType::List),
        ReqOpType::MakeText => Some(ObjType::Text),
        _ => None,
    }
}

/// The scalar that a request carries: a counter or timestamp where the data
/// type says so and the value has an integer reading, else the value as it
/// is, and null where there is none.
pub open spec fn primitive_of(value: Option<ValueView>, datatype: Option<DataType>) -> ValueView {
    let n = match value {
        Some(v) => value_to_i64(v),
        None => None,
    };
    match (n, datatype) {
        (Some(n), Some(DataType::Counter)) => ValueView::Counter(n),
        (Some(n), Some(DataType::Timestamp)) => ValueView::Timestamp(n),
        _ => match value {
            Some(v) => v,
            None => ValueView::Null,
        },
    }
}

impl OpRequest {
    /// The scalar that the request carries.
    pub fn primitive_value(&self) -> (r: Value)
        ensures
            r@ == primitive_of(opt_value_view(self.value), self.datatype),
    {
        let n = self.to_i64();
        match (n, self.datatype) {
            (Some(n), Some(DataType::Counter)) => Value::Counter(n),
            (Some(n), Some(DataType::Timestamp)) => Value::Timestamp(n),
            _ => match &self.value {
                Some(v) => v.duplicate(),
                None => Value::Null,
            },
        }
    }

    /// The container kind that the request makes, if it makes one.
    pub fn obj_type(&self) -> (r: Option<ObjType>)
        ensures
            r == made_type(self.action),
    {
        match self.action {
            ReqOpType::MakeMap => Some(ObjType::Dict),
            ReqOpType::MakeTable => Some(ObjType::Table),
            ReqOpType::MakeList => Some(ObjType::List),
            ReqOpType::MakeText => Some(ObjType::Text),
            _ => None,
        }
    }

    /// The integer reading of the value, if it has one.
    pub fn to_i64(&self) -> (r: Option<i64>)
        ensures
            r == match self.value {
                Some(v) => value_to_i64(v@),
                None => None,
            },
    {
        match &self.value {
            Some(v) => v.to_i64(),
            None => None,
        }
    }
}

} // verus!
