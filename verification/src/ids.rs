//! Identifiers: actors, operations, objects, list elements, keys, and the
//! tags for container and scalar kinds.

use crate::order::{
    bytes_lt, lemma_bytes_lt_asymmetric, lemma_bytes_lt_transitive, lemma_bytes_total, rank_bytes,
    Rank,
};
use vstd::prelude::*;
use vstd::utf8::{encode_utf8, encode_utf8_decode_utf8};

verus! {

/// The kind of a container. It is fixed when the container is made.
#[derive(Clone, Copy, Debug, PartialEq, Eq, Hash, Structural)]
pub enum ObjType {
    Dict,
    Table,
    Text,
    List,
}

impl ObjType {
    /// Lists and texts hold a sequence of elements; maps and tables hold named keys.
    pub open spec fn is_sequence(self) -> bool {
        self == ObjType::List || self == ObjType::Text
    }

    /// Whether the kind holds a sequence of elements.
    pub fn holds_sequence(&self) -> (b: bool)
        ensures
            b == self.is_sequence(),
    {
        match self {
            ObjType::List => true,
            ObjType::Text => true,
            _ => false,
        }
    }
}

/// The meaning of a scalar beyond its bare value.
#[derive(Clone, Copy, Debug, PartialEq, Eq, Structural)]
pub enum DataType {
    Counter,
    Timestamp,
    Undefined,
}

impl DataType {
    /// Whether the data type is `Undefined`.
    pub fn is_undefined(d: &DataType) -> (b: bool)
        ensures
            b == (*d == DataType::Undefined),
    {
        match d {
            DataType::Undefined => true,
            _ => false,
        }
    }
}

/// The identity of one replica.
#[derive(Clone, Debug, PartialEq, Eq, Hash)]
pub struct ActorID(pub String);

impl View for ActorID {
    type V = Seq<char>;

    open spec fn view(&self) -> Seq<char> {
        self.0@
    }
}

impl ActorID {
    /// A copy that holds the same value.
    pub fn duplicate(&self) -> (r: ActorID)
        ensures
            r@ == self@,
    {
        ActorID(self.0.clone())
    }

    /// Whether the two hold the same value.
    pub fn same(&self, other: &ActorID) -> (b: bool)
        ensures
            b == (self@ == other@),
    {
        self.0 == other.0
    }
}

/// The identity of a change: 256 bits that stand for its content.
#[derive(Clone, Copy, Debug, PartialEq, Eq, Hash, Structural)]
pub struct ChangeHash(pub u128, pub u128);

/// What an `OpID` is in contracts: a counter and the actor's name.
pub struct OpIdView {
    pub counter: u64,
    pub actor: Seq<char>,
}

/// The strict total order on operation identifiers: by counter, then by the
/// bytes of the actor's name. Every tie between concurrent writers is broken
/// by it.
pub open spec fn opid_lt(a: OpIdView, b: OpIdView) -> bool {
    a.counter < b.counter || (a.counter == b.counter && bytes_lt(
        encode_utf8(a.actor),
        encode_utf8(b.actor),
    ))
}

/// The order never holds both ways.
pub proof fn lemma_opid_lt_asymmetric(a: OpIdView, b: OpIdView)
    requires
        opid_lt(a, b),
    ensures
        !opid_lt(b, a),
        a != b,
{
    if a.counter == b.counter {
        lemma_bytes_lt_asymmetric(encode_utf8(a.actor), encode_utf8(b.actor));
    }
}

/// The order carries over a middle term.
pub proof fn lemma_opid_lt_transitive(a: OpIdView, b: OpIdView, c: OpIdView)
    requires
        opid_lt(a, b),
        opid_lt(b, c),
    ensures
        opid_lt(a, c),
{
    if a.counter == b.counter && b.counter == c.counter {
        lemma_bytes_lt_transitive(
            encode_utf8(a.actor),
            encode_utf8(b.actor),
            encode_utf8(c.actor),
        );
    }
}

/// Two different identifiers are ordered one way or the other.
pub proof fn lemma_opid_lt_total(a: OpIdView, b: OpIdView)
    ensures
        a == b || opid_lt(a, b) || opid_lt(b, a),
{
    if a.counter == b.counter {
        let x = encode_utf8(a.actor);
        let y = encode_utf8(b.actor);
        lemma_bytes_total(x, y);
        if x == y {
            encode_utf8_decode_utf8(a.actor);
            encode_utf8_decode_utf8(b.actor);
            assert(a.actor == b.actor);
        }
    }
}

/// The identifier of one operation: a Lamport counter and the actor that
/// issued it.
#[derive(Clone, Debug, PartialEq, Eq, Hash)]
pub struct OpID(pub u64, pub String);

impl View for OpID {
    type V = OpIdView;

    open spec fn view(&self) -> OpIdView {
        OpIdView { counter: self.0, actor: self.1@ }
    }
}

impl OpID {
    /// The identifier with the given counter and actor.
    pub fn new(seq: u64, actor: &ActorID) -> (r: OpID)
        ensures
            r@ == (OpIdView { counter: seq, actor: actor@ }),
    {
        OpID(seq, actor.0.clone())
    }

    /// The counter of the identifier.
    pub fn counter(&self) -> (c: u64)
        ensures
            c == self@.counter,
    {
        self.0
    }

    /// A copy that holds the same value.
    pub fn duplicate(&self) -> (r: OpID)
        ensures
            r@ == self@,
    {
        OpID(self.0, self.1.clone())
    }

    /// Where `self` stands to `other` in the order of `opid_lt`.
    pub fn rank(&self, other: &OpID) -> (r: Rank)
        ensures
            r == Rank::Before <==> opid_lt(self@, other@),
            r == Rank::Same <==> self@ == other@,
            r == Rank::After <==> opid_lt(other@, self@),
    {
        proof {
            lemma_opid_lt_total(self@, other@);
            if opid_lt(self@, other@) {
                lemma_opid_lt_asymmetric(self@, other@);
            }
            if opid_lt(other@, self@) {
                lemma_opid_lt_asymmetric(other@, self@);
            }
        }
        if self.0 < other.0 {
            Rank::Before
        } else if other.0 < self.0 {
            Rank::After
        } else {
            let r = rank_bytes(self.1.as_str().as_bytes(), other.1.as_str().as_bytes());
            proof {
                if self.1@ == other.1@ {
                    assert(self@ == other@);
                }
                if r == Rank::Same {
                    encode_utf8_decode_utf8(self.1@);
                    encode_utf8_decode_utf8(other.1@);
                }
            }
            r
        }
    }

    /// Whether the two hold the same value.
    pub fn same(&self, other: &OpID) -> (b: bool)
        ensures
            b == (self@ == other@),
    {
        self.0 == other.0 && self.1 == other.1
    }
}

/// What an `ObjectID` is in contracts.
pub enum ObjectIdView {
    ID(OpIdView),
    Root,
}

/// A container: the root of the document, or the container that the named
/// operation made.
#[derive(Clone, Debug, PartialEq, Eq, Hash)]
pub enum ObjectID {
    ID(OpID),
    Root,
}

impl View for ObjectID {
    type V = ObjectIdView;

    open spec fn view(&self) -> ObjectIdView {
        match self {
            ObjectID::ID(id) => ObjectIdView::ID(id@),
            ObjectID::Root => ObjectIdView::Root,
        }
    }
}

impl ObjectID {
    /// A copy that holds the same value.
    pub fn duplicate(&self) -> (r: ObjectID)
        ensures
            r@ == self@,
    {
        match self {
            ObjectID::ID(id) => ObjectID::ID(id.duplicate()),
            ObjectID::Root => ObjectID::Root,
        }
    }

    /// Whether the two hold the same value.
    pub fn same(&self, other: &ObjectID) -> (b: bool)
        ensures
            b == (self@ == other@),
    {
        match (self, other) {
            (ObjectID::ID(a), ObjectID::ID(b)) => a.same(b),
            (ObjectID::Root, ObjectID::Root) => true,
            _ => false,
        }
    }
}

/// What an `ElementID` is in contracts.
pub enum ElementIdView {
    Head,
    ID(OpIdView),
}

/// A place in a list or text: its head, or the element that the named
/// insertion made.
#[derive(Clone, Debug, PartialEq, Eq, Hash)]
pub enum ElementID {
    Head,
    ID(OpID),
}

impl View for ElementID {
    type V = ElementIdView;

    open spec fn view(&self) -> ElementIdView {
        match self {
            ElementID::Head => ElementIdView::Head,
            ElementID::ID(id) => ElementIdView::ID(id@),
        }
    }
}

impl ElementID {
    /// The identifier of the element; none for the head.
    pub fn as_opid(&self) -> (r: Option<&OpID>)
        ensures
            match *self {
                ElementID::Head => r is None,
                ElementID::ID(id) => r == Some(&id),
            },
    {
        match self {
            ElementID::Head => None,
            ElementID::ID(opid) => Some(opid),
        }
    }

    /// The key that names this place.
    pub fn into_key(self) -> (k: Key)
        ensures
            k == Key::Elem(self),
    {
        Key::Elem(self)
    }

    /// Whether this is an element and not the head.
    pub fn not_head(&self) -> (b: bool)
        ensures
            b == (self@ != ElementIdView::Head),
    {
        match self {
            ElementID::Head => false,
            ElementID::ID(_) => true,
        }
    }

    /// A copy that holds the same value.
    pub fn duplicate(&self) -> (r: ElementID)
        ensures
            r@ == self@,
    {
        match self {
            ElementID::Head => ElementID::Head,
            ElementID::ID(id) => ElementID::ID(id.duplicate()),
        }
    }

    /// Whether the two hold the same value.
    pub fn same(&self, other: &ElementID) -> (b: bool)
        ensures
            b == (self@ == other@),
    {
        match (self, other) {
            (ElementID::ID(a), ElementID::ID(b)) => a.same(b),
            (ElementID::Head, ElementID::Head) => true,
            _ => false,
        }
    }
}

/// What a `Key` is in contracts.
pub enum KeyView {
    Prop(Seq<char>),
    Elem(ElementIdView),
}

/// A slot of a container: a named property of a map or table, or a place in
/// a list or text.
#[derive(Clone, Debug, PartialEq, Eq, Hash)]
pub enum Key {
    Prop(String),
    Elem(ElementID),
}

impl View for Key {
    type V = KeyView;

    open spec fn view(&self) -> KeyView {
        match self {
            Key::Prop(s) => KeyView::Prop(s@),
            Key::Elem(e) => KeyView::Elem(e@),
        }
    }
}

impl Key {
    /// The key that names the head of a sequence.
    pub fn head() -> (k: Key)
        ensures
            k == Key::Elem(ElementID::Head),
    {
        Key::Elem(ElementID::Head)
    }

    /// The place that the key names, if it names one in a sequence.
    pub fn as_element_id(&self) -> (r: Option<ElementID>)
        ensures
            match self@ {
                KeyView::Prop(_) => r is None,
                KeyView::Elem(e) => r is Some && r->0@ == e,
            },
    {
        match self {
            Key::Prop(_) => None,
            Key::Elem(eid) => Some(eid.duplicate()),
        }
    }

    /// The identifier of the element that the key names, if it names one.
    pub fn to_opid(&self) -> (r: Option<OpID>)
        ensures
            match self@ {
                KeyView::Elem(ElementIdView::ID(id)) => r is Some && r->0@ == id,
                _ => r is None,
            },
    {
        match self {
            Key::Elem(ElementID::ID(id)) => Some(id.duplicate()),
            _ => None,
        }
    }

    /// A copy that holds the same value.
    pub fn duplicate(&self) -> (r: Key)
        ensures
            r@ == self@,
    {
        match self {
            Key::Prop(s) => Key::Prop(s.clone()),
            Key::Elem(e) => Key::Elem(e.duplicate()),
        }
    }

    /// Whether the two hold the same value.
    pub fn same(&self, other: &Key) -> (b: bool)
        ensures
            b == (self@ == other@),
    {
        match (self, other) {
            (Key::Prop(a), Key::Prop(b)) => *a == *b,
            (Key::Elem(a), Key::Elem(b)) => a.same(b),
            _ => false,
        }
    }
}

} // verus!
