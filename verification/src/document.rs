//! The document: the set of operations that have been applied, held in the
//! order of their identifiers.
//!
//! Every reading of the document (the kind of a container, the conflict set
//! of a slot, the order of a list) is a function of that set alone, so two
//! replicas that hold the same operations read the same document, whatever
//! the order in which the operations reached them.

use crate::change::{OpType, Operation, OperationView};
use crate::error::AutomergeError;
use crate::ids::{
    lemma_opid_lt_asymmetric, lemma_opid_lt_total, lemma_opid_lt_transitive, opid_lt, ElementID, ElementIdView, Key,
    KeyView, ObjType, ObjectID, ObjectIdView, OpID, OpIdView,
};
use crate::order::Rank;
use crate::value::{value_from, value_to_i64};
use vstd::prelude::*;

verus! {

/// What an `AppliedOp` is in contracts.
pub struct AppliedOpView {
    pub id: OpIdView,
    pub op: OperationView,
}

/// An operation together with its identifier.
#[derive(Clone, Debug, PartialEq)]
pub struct AppliedOp {
    pub id: OpID,
    pub op: Operation,
}

impl View for AppliedOp {
    type V = AppliedOpView;

    open spec fn view(&self) -> AppliedOpView {
        AppliedOpView { id: self.id@, op: self.op@ }
    }
}

impl AppliedOp {
    /// A copy that holds the same value.
    pub fn duplicate(&self) -> (r: AppliedOp)
        ensures
            r@ == self@,
    {
        AppliedOp { id: self.id.duplicate(), op: self.op.duplicate() }
    }

    /// The key of the slot that the operation writes to.
    pub fn slot(&self) -> (k: Key)
        ensures
            k@ == slot_key(self@),
    {
        if self.op.insert {
            Key::Elem(ElementID::ID(self.id.duplicate()))
        } else {
            self.op.key.duplicate()
        }
    }
}

/// What a `Path` is in contracts.
pub struct PathView {
    pub object: ObjectIdView,
    pub key: KeyView,
}

/// A slot of the document: a container and a key in it.
#[derive(Clone, Debug, PartialEq)]
pub struct Path {
    pub object: ObjectID,
    pub key: Key,
}

impl View for Path {
    type V = PathView;

    open spec fn view(&self) -> PathView {
        PathView { object: self.object@, key: self.key@ }
    }
}

impl Path {
    /// A copy that holds the same value.
    pub fn duplicate(&self) -> (r: Path)
        ensures
            r@ == self@,
    {
        Path { object: self.object.duplicate(), key: self.key.duplicate() }
    }

    /// Whether the two hold the same value.
    pub fn same(&self, other: &Path) -> (b: bool)
        ensures
            b == (self@ == other@),
    {
        self.object.same(&other.object) && self.key.same(&other.key)
    }
}

/// The document in contracts: its operations, ascending by identifier.
pub type DocView = Seq<AppliedOpView>;

/// The identifiers ascend strictly along `s`.
pub open spec fn ids_ascending(s: DocView) -> bool {
    forall|i: int, j: int| 0 <= i < j < s.len() ==> opid_lt(#[trigger] s[i].id, #[trigger] s[j].id)
}

/// An operation with this identifier is in `s`.
pub open spec fn has_op(s: DocView, id: OpIdView) -> bool {
    exists|i: int| 0 <= i < s.len() && #[trigger] s[i].id == id
}

/// Where the operation with this identifier stands in `s`.
pub open spec fn op_index(s: DocView, id: OpIdView) -> int {
    choose|i: int| 0 <= i < s.len() && #[trigger] s[i].id == id
}

/// Among ascending identifiers an identifier has one place.
pub proof fn lemma_index_unique(s: DocView, id: OpIdView, i: int)
    requires
        ids_ascending(s),
        0 <= i < s.len(),
        s[i].id == id,
    ensures
        has_op(s, id),
        op_index(s, id) == i,
{
    let j = op_index(s, id);
    if j < i {
        lemma_opid_lt_asymmetric(s[j].id, s[i].id);
    } else if i < j {
        lemma_opid_lt_asymmetric(s[i].id, s[j].id);
    }
}

/// The key of the slot that an operation writes to. An insertion makes a
/// slot of its own: the element that it creates.
pub open spec fn slot_key(r: AppliedOpView) -> KeyView {
    if r.op.insert {
        KeyView::Elem(ElementIdView::ID(r.id))
    } else {
        r.op.key
    }
}

/// The operation is aimed at this slot of this container.
pub open spec fn in_slot(r: AppliedOpView, object: ObjectIdView, key: KeyView) -> bool {
    r.op.object == object && slot_key(r) == key
}

/// The kind of a container; `None` where no operation of `s` has made it.
pub open spec fn object_type(s: DocView, object: ObjectIdView) -> Option<ObjType> {
    match object {
        ObjectIdView::Root => Some(ObjType::Dict),
        ObjectIdView::ID(id) => if has_op(s, id) {
            s[op_index(s, id)].op.action.made()
        } else {
            None
        },
    }
}

/// `id` is an element of the sequence `object`.
pub open spec fn is_element(s: DocView, object: ObjectIdView, id: OpIdView) -> bool {
    has_op(s, id) && s[op_index(s, id)].op.insert && s[op_index(s, id)].op.object == object
}

/// `id` has written a value to the slot.
pub open spec fn is_entry(s: DocView, object: ObjectIdView, key: KeyView, id: OpIdView) -> bool {
    has_op(s, id) && s[op_index(s, id)].op.action.writes() && in_slot(
        s[op_index(s, id)],
        object,
        key,
    )
}

/// Every predecessor that `r` names has written to the slot that `r` is aimed at.
pub open spec fn preds_known(s: DocView, r: AppliedOpView) -> bool {
    forall|k: int|
        0 <= k < r.op.pred.len() ==> is_entry(s, r.op.object, slot_key(r), #[trigger] r.op.pred[k])
}

/// What is wrong with the key of `r`, for a container of kind `kind`.
pub open spec fn check_key(s: DocView, r: AppliedOpView, kind: ObjType) -> Option<AutomergeError> {
    if kind.is_sequence() {
        match r.op.key {
            KeyView::Prop(_) => Some(AutomergeError::InvalidChange),
            KeyView::Elem(e) => if r.op.insert {
                if !r.op.action.writes() {
                    Some(AutomergeError::InvalidChange)
                } else {
                    match e {
                        ElementIdView::Head => None,
                        ElementIdView::ID(a) => if !is_element(s, r.op.object, a) {
                            Some(AutomergeError::MissingElement)
                        } else if !opid_lt(a, r.id) {
                            Some(AutomergeError::InvalidChange)
                        } else {
                            None
                        },
                    }
                }
            } else {
                match e {
                    ElementIdView::Head => Some(AutomergeError::MissingElement),
                    ElementIdView::ID(a) => if is_element(s, r.op.object, a) {
                        None
                    } else {
                        Some(AutomergeError::MissingElement)
                    },
                }
            },
        }
    } else {
        if r.op.insert || !(r.op.key is Prop) {
            Some(AutomergeError::InvalidChange)
        } else {
            None
        }
    }
}

/// The amount that an increment adds.
pub open spec fn amount(op: OperationView) -> Option<i64> {
    match op.value {
        Some(v) => value_to_i64(v),
        None => None,
    }
}

/// What is wrong with what `op` carries.
pub open spec fn check_payload(s: DocView, op: OperationView) -> Option<AutomergeError> {
    match op.action {
        OpType::Assign => if value_from(op.value, op.datatype) is None {
            Some(AutomergeError::EncodingError)
        } else {
            None
        },
        OpType::Inc => if amount(op) is None {
            Some(AutomergeError::EncodingError)
        } else {
            None
        },
        OpType::Link => match op.child {
            None => Some(AutomergeError::InvalidChange),
            Some(c) => if object_type(s, c) is None {
                Some(AutomergeError::MissingObject)
            } else {
                None
            },
        },
        _ => None,
    }
}

/// Why `r` cannot be applied to `s`; `None` where it can.
///
/// An identifier is used once. The container must exist. In a list or text
/// the key names an element of it (for an insertion: the head, or an element
/// with a smaller identifier); in a map or table it is a property name. The
/// predecessors have written to the same slot. The payload fits the action.
pub open spec fn check_op(s: DocView, r: AppliedOpView) -> Option<AutomergeError> {
    if has_op(s, r.id) {
        Some(AutomergeError::InvalidChange)
    } else {
        match object_type(s, r.op.object) {
            None => Some(AutomergeError::MissingObject),
            Some(kind) => match check_key(s, r, kind) {
                Some(e) => Some(e),
                None => if !preds_known(s, r) {
                    Some(AutomergeError::InvalidChange)
                } else {
                    check_payload(s, r.op)
                },
            },
        }
    }
}

/// `r` stands in `s` as `check_op` asks of an operation, its identifier aside.
pub open spec fn well_placed(s: DocView, r: AppliedOpView) -> bool {
    match object_type(s, r.op.object) {
        None => false,
        Some(kind) => check_key(s, r, kind) is None && preds_known(s, r) && check_payload(
            s,
            r.op,
        ) is None,
    }
}

/// Every operation of `s` is well placed: its container, the element it
/// names and its predecessors are in `s`.
pub open spec fn valid(s: DocView) -> bool {
    forall|i: int| 0 <= i < s.len() ==> well_placed(s, #[trigger] s[i])
}

/// What holds of every document.
pub open spec fn doc_wf(s: DocView) -> bool {
    ids_ascending(s) && valid(s)
}

/// `k` parts `s` into the operations before `id` and those after it.
pub open spec fn splits(s: DocView, id: OpIdView, k: int) -> bool {
    &&& 0 <= k <= s.len()
    &&& forall|i: int| 0 <= i < k ==> opid_lt(#[trigger] s[i].id, id)
    &&& forall|i: int| k <= i < s.len() ==> opid_lt(id, #[trigger] s[i].id)
}

/// The place of a new identifier in `s`.
pub open spec fn insert_at(s: DocView, id: OpIdView) -> int {
    choose|k: int| splits(s, id, k)
}

/// `s` with `r` added in the place of its identifier.
pub open spec fn add_op(s: DocView, r: AppliedOpView) -> DocView {
    s.insert(insert_at(s, r.id), r)
}

/// A new identifier has one place only.
pub proof fn lemma_split_unique(s: DocView, id: OpIdView, k: int)
    requires
        splits(s, id, k),
    ensures
        insert_at(s, id) == k,
{
    let m = insert_at(s, id);
    if m < k {
        lemma_opid_lt_asymmetric(s[m].id, id);
    } else if k < m {
        lemma_opid_lt_asymmetric(s[k].id, id);
    }
}

/// Putting an operation at the place of its identifier keeps the identifiers ascending.
pub proof fn lemma_insert_ascending(s: DocView, r: AppliedOpView, k: int)
    requires
        ids_ascending(s),
        splits(s, r.id, k),
    ensures
        ids_ascending(s.insert(k, r)),
{
    let t = s.insert(k, r);
    assert forall|i: int, j: int| 0 <= i < j < t.len() implies opid_lt(
        #[trigger] t[i].id,
        #[trigger] t[j].id,
    ) by {
        if i < k && j > k {
            assert(opid_lt(s[i].id, s[j - 1].id) || i == j - 1);
            if i == j - 1 {
                lemma_opid_lt_transitive(s[i].id, r.id, s[j - 1].id);
            }
        } else if i < k && j < k {
            assert(opid_lt(s[i].id, s[j].id));
        } else if i > k {
            assert(opid_lt(s[i - 1].id, s[j - 1].id));
        }
    }
}

/// A new identifier has its place among ascending ones.
pub proof fn lemma_split_exists(s: DocView, id: OpIdView) -> (k: int)
    requires
        ids_ascending(s),
        !has_op(s, id),
    ensures
        splits(s, id, k),
    decreases s.len(),
{
    if s.len() == 0 {
        0
    } else {
        let t = s.drop_last();
        let last = s.last();
        assert(ids_ascending(t)) by {
            assert forall|i: int, j: int| 0 <= i < j < t.len() implies opid_lt(
                #[trigger] t[i].id,
                #[trigger] t[j].id,
            ) by {
                assert(opid_lt(s[i].id, s[j].id));
            }
        }
        assert(!has_op(t, id)) by {
            if has_op(t, id) {
                let i = choose|i: int| 0 <= i < t.len() && #[trigger] t[i].id == id;
                assert(s[i].id == id);
            }
        }
        lemma_opid_lt_total(last.id, id);
        assert(s[s.len() - 1].id != id);
        if opid_lt(last.id, id) {
            assert forall|i: int| 0 <= i < s.len() implies opid_lt(#[trigger] s[i].id, id) by {
                if i < s.len() - 1 {
                    assert(opid_lt(s[i].id, s[s.len() - 1].id));
                    lemma_opid_lt_transitive(s[i].id, last.id, id);
                }
            }
            s.len() as int
        } else {
            let k = lemma_split_exists(t, id);
            assert forall|i: int| 0 <= i < k implies opid_lt(#[trigger] s[i].id, id) by {
                assert(opid_lt(t[i].id, id));
            }
            assert forall|i: int| k <= i < s.len() implies opid_lt(id, #[trigger] s[i].id) by {
                if i < s.len() - 1 {
                    assert(opid_lt(id, t[i].id));
                }
            }
            k
        }
    }
}

/// Adding an operation with a new identifier keeps the order, and adds that
/// operation and no other.
pub proof fn lemma_add_op(s: DocView, r: AppliedOpView)
    requires
        ids_ascending(s),
        !has_op(s, r.id),
    ensures
        ids_ascending(add_op(s, r)),
        forall|x: AppliedOpView| #[trigger] add_op(s, r).contains(x) <==> s.contains(x) || x == r,
{
    let k = lemma_split_exists(s, r.id);
    lemma_split_unique(s, r.id, k);
    lemma_insert_ascending(s, r, k);
    let t = s.insert(k, r);
    assert(t == add_op(s, r));
    assert forall|x: AppliedOpView| #[trigger] t.contains(x) <==> s.contains(x) || x == r by {
        if t.contains(x) {
            let i = choose|i: int| 0 <= i < t.len() && t[i] == x;
            if i < k {
                assert(s[i] == x);
            } else if i > k {
                assert(s[i - 1] == x);
            }
        }
        if s.contains(x) {
            let i = choose|i: int| 0 <= i < s.len() && s[i] == x;
            if i < k {
                assert(t[i] == x);
            } else {
                assert(t[i + 1] == x);
            }
        }
        assert(t[k] == r);
    }
}

/// Adding an operation with a new identifier moves no other operation out
/// of reach: each identifier still finds its operation.
pub proof fn lemma_lookup_stable(s: DocView, r: AppliedOpView)
    requires
        ids_ascending(s),
        !has_op(s, r.id),
    ensures
        has_op(add_op(s, r), r.id),
        add_op(s, r)[op_index(add_op(s, r), r.id)] == r,
        forall|id: OpIdView| #[trigger]
            has_op(s, id) ==> has_op(add_op(s, r), id) && add_op(s, r)[op_index(add_op(s, r), id)]
                == s[op_index(s, id)],
        forall|id: OpIdView| #[trigger] has_op(add_op(s, r), id) ==> has_op(s, id) || id == r.id,
{
    let k = lemma_split_exists(s, r.id);
    lemma_split_unique(s, r.id, k);
    lemma_insert_ascending(s, r, k);
    let t = s.insert(k, r);
    assert(t == add_op(s, r));
    assert(t[k] == r);
    lemma_index_unique(t, r.id, k);
    assert forall|id: OpIdView| #[trigger] has_op(s, id) implies has_op(t, id) && t[op_index(
        t,
        id,
    )] == s[op_index(s, id)] by {
        let i = op_index(s, id);
        if i < k {
            assert(t[i] == s[i]);
            lemma_index_unique(t, id, i);
        } else {
            assert(t[i + 1] == s[i]);
            lemma_index_unique(t, id, i + 1);
        }
    }
    assert forall|id: OpIdView| #[trigger] has_op(t, id) implies has_op(s, id) || id == r.id by {
        let i = op_index(t, id);
        if i < k {
            assert(s[i].id == id);
        } else if i > k {
            assert(s[i - 1].id == id);
        }
    }
}

/// An operation that is well placed stays so when another joins the document.
pub proof fn lemma_well_placed_stable(s: DocView, r: AppliedOpView, x: AppliedOpView)
    requires
        ids_ascending(s),
        !has_op(s, r.id),
        well_placed(s, x),
    ensures
        well_placed(add_op(s, r), x),
{
    let t = add_op(s, r);
    lemma_lookup_stable(s, r);
    let kind = object_type(s, x.op.object)->0;
    assert(object_type(t, x.op.object) == Some(kind)) by {
        match x.op.object {
            ObjectIdView::Root => {},
            ObjectIdView::ID(id) => {
                assert(has_op(s, id));
            },
        }
    }
    assert(check_key(t, x, kind) is None) by {
        if kind.is_sequence() {
            match x.op.key {
                KeyView::Elem(ElementIdView::ID(a)) => {
                    assert(is_element(s, x.op.object, a));
                    assert(has_op(s, a));
                },
                _ => {},
            }
        }
    }
    assert(preds_known(t, x)) by {
        assert forall|k: int| 0 <= k < x.op.pred.len() implies is_entry(
            t,
            x.op.object,
            slot_key(x),
            #[trigger] x.op.pred[k],
        ) by {
            assert(is_entry(s, x.op.object, slot_key(x), x.op.pred[k]));
            assert(has_op(s, x.op.pred[k]));
        }
    }
    assert(check_payload(t, x.op) is None) by {
        if x.op.action == OpType::Link {
            match x.op.child {
                Some(ObjectIdView::ID(id)) => {
                    assert(has_op(s, id));
                },
                _ => {},
            }
        }
    }
}

/// An operation that passes the check joins a document and leaves it well formed.
pub proof fn lemma_add_op_valid(s: DocView, r: AppliedOpView)
    requires
        doc_wf(s),
        check_op(s, r) is None,
    ensures
        doc_wf(add_op(s, r)),
{
    let t = add_op(s, r);
    lemma_add_op(s, r);
    assert(well_placed(s, r));
    assert forall|i: int| 0 <= i < t.len() implies well_placed(t, #[trigger] t[i]) by {
        assert(t.contains(t[i]));
        if t[i] == r {
            lemma_well_placed_stable(s, r, r);
        } else {
            assert(s.contains(t[i]));
            let j = choose|j: int| 0 <= j < s.len() && s[j] == t[i];
            assert(well_placed(s, s[j]));
            lemma_well_placed_stable(s, r, t[i]);
        }
    }
}

/// The views of a sequence of applied operations.
pub open spec fn applied_view(v: Seq<AppliedOp>) -> DocView {
    v.map_values(|r: AppliedOp| r@)
}

/// The operations of a document.
pub struct Document {
    ops: Vec<AppliedOp>,
}

impl View for Document {
    type V = DocView;

    closed spec fn view(&self) -> DocView {
        applied_view(self.ops@)
    }
}

impl Document {
    #[verifier::type_invariant]
    closed spec fn well_formed(self) -> bool {
        doc_wf(self@)
    }

    /// The empty document: the root alone, with no key.
    pub fn new() -> (d: Document)
        ensures
            d@ == Seq::<AppliedOpView>::empty(),
            doc_wf(d@),
    {
        let d = Document { ops: Vec::new() };
        assert(d@ =~= Seq::<AppliedOpView>::empty());
        d
    }

    /// A copy of the document.
    pub fn duplicate(&self) -> (r: Document)
        ensures
            r@ == self@,
    {
        proof {
            use_type_invariant(self);
        }
        let mut ops: Vec<AppliedOp> = Vec::new();
        let mut i: usize = 0;
        while i < self.ops.len()
            invariant
                i <= self.ops.len(),
                ops.len() == i,
                forall|j: int| 0 <= j < i ==> ops[j]@ == self.ops[j]@,
            decreases self.ops.len() - i,
        {
            ops.push(self.ops[i].duplicate());
            i = i + 1;
        }
        assert(applied_view(ops@) =~= applied_view(self.ops@));
        Document { ops }
    }

    /// The number of operations.
    pub fn len(&self) -> (n: usize)
        ensures
            n == self@.len(),
    {
        self.ops.len()
    }

    /// The operation at place `i`.
    pub fn get(&self, i: usize) -> (r: &AppliedOp)
        requires
            i < self@.len(),
        ensures
            r@ == self@[i as int],
    {
        &self.ops[i]
    }

    /// Where the operation `id` stands, if it is there.
    pub fn find(&self, id: &OpID) -> (r: Option<usize>)
        ensures
            r is Some == has_op(self@, id@),
            r is Some ==> r->0 == op_index(self@, id@) && r->0 < self@.len(),
    {
        proof {
            use_type_invariant(self);
        }
        let mut i: usize = 0;
        while i < self.ops.len()
            invariant
                i <= self.ops.len(),
                forall|j: int| 0 <= j < i ==> self@[j].id != id@,
                ids_ascending(self@),
            decreases self.ops.len() - i,
        {
            if self.ops[i].id.same(id) {
                proof {
                    lemma_index_unique(self@, id@, i as int);
                }
                return Some(i);
            }
            i = i + 1;
        }
        None
    }

    /// The kind of a container, if it has been made.
    pub fn object_type(&self, object: &ObjectID) -> (r: Option<ObjType>)
        ensures
            r == object_type(self@, object@),
    {
        match object {
            ObjectID::Root => Some(ObjType::Dict),
            ObjectID::ID(id) => match self.find(id) {
                Some(i) => self.ops[i].op.action.makes(),
                None => None,
            },
        }
    }

    /// Whether `id` is an element of the sequence `object`.
    pub fn is_element(&self, object: &ObjectID, id: &OpID) -> (b: bool)
        ensures
            b == is_element(self@, object@, id@),
    {
        match self.find(id) {
            Some(i) => self.ops[i].op.insert && self.ops[i].op.object.same(object),
            None => false,
        }
    }

    /// Whether `id` has written a value to the slot.
    fn is_entry(&self, object: &ObjectID, key: &Key, id: &OpID) -> (b: bool)
        ensures
            b == is_entry(self@, object@, key@, id@),
    {
        match self.find(id) {
            Some(i) => {
                let r = &self.ops[i];
                r.op.action.is_write() && r.op.object.same(object) && r.slot().same(key)
            },
            None => false,
        }
    }

    /// What is wrong with the key of the operation, for a container of kind `kind`.
    fn check_key(&self, id: &OpID, op: &Operation, kind: ObjType) -> (e: Option<AutomergeError>)
        ensures
            e == check_key(self@, AppliedOpView { id: id@, op: op@ }, kind),
    {
        if kind.holds_sequence() {
            match &op.key {
                Key::Prop(_) => Some(AutomergeError::InvalidChange),
                Key::Elem(e) => if op.insert {
                    if !op.action.is_write() {
                        Some(AutomergeError::InvalidChange)
                    } else {
                        match e {
                            ElementID::Head => None,
                            ElementID::ID(a) => if !self.is_element(&op.object, a) {
                                Some(AutomergeError::MissingElement)
                            } else if a.rank(id) != Rank::Before {
                                Some(AutomergeError::InvalidChange)
                            } else {
                                None
                            },
                        }
                    }
                } else {
                    match e {
                        ElementID::Head => Some(AutomergeError::MissingElement),
                        ElementID::ID(a) => if self.is_element(&op.object, a) {
                            None
                        } else {
                            Some(AutomergeError::MissingElement)
                        },
                    }
                },
            }
        } else {
            match &op.key {
                Key::Prop(_) => if op.insert {
                    Some(AutomergeError::InvalidChange)
                } else {
                    None
                },
                Key::Elem(_) => Some(AutomergeError::InvalidChange),
            }
        }
    }

    /// Whether every predecessor has written to the slot that the operation is aimed at.
    fn preds_known(&self, id: &OpID, op: &Operation) -> (b: bool)
        ensures
            b == preds_known(self@, AppliedOpView { id: id@, op: op@ }),
    {
        let ghost r = AppliedOpView { id: id@, op: op@ };
        let key = if op.insert {
            Key::Elem(ElementID::ID(id.duplicate()))
        } else {
            op.key.duplicate()
        };
        let mut k: usize = 0;
        while k < op.predecessors.len()
            invariant
                k <= op.predecessors.len(),
                r == (AppliedOpView { id: id@, op: op@ }),
                key@ == slot_key(r),
                forall|j: int| 0 <= j < k ==> is_entry(self@, r.op.object, slot_key(r), #[trigger] r.op.pred[j]),
            decreases op.predecessors.len() - k,
        {
            if !self.is_entry(&op.object, &key, &op.predecessors[k]) {
                assert(r.op.pred[k as int] == op.predecessors[k as int]@);
                return false;
            }
            assert(r.op.pred[k as int] == op.predecessors[k as int]@);
            k = k + 1;
        }
        true
    }

    /// What is wrong with what the operation carries.
    fn check_payload(&self, op: &Operation) -> (e: Option<AutomergeError>)
        ensures
            e == check_payload(self@, op@),
    {
        match op.action {
            OpType::Assign => {
                let readable = match op.datatype {
                    Some(crate::ids::DataType::Counter) | Some(crate::ids::DataType::Timestamp) => match &op.value {
                        Some(v) => v.to_i64().is_some(),
                        None => false,
                    },
                    _ => op.value.is_some(),
                };
                if readable {
                    None
                } else {
                    Some(AutomergeError::EncodingError)
                }
            },
            OpType::Inc => {
                let n = match &op.value {
                    Some(v) => v.to_i64(),
                    None => None,
                };
                if n.is_none() {
                    Some(AutomergeError::EncodingError)
                } else {
                    None
                }
            },
            OpType::Link => match &op.child {
                None => Some(AutomergeError::InvalidChange),
                Some(c) => if self.object_type(c).is_none() {
                    Some(AutomergeError::MissingObject)
                } else {
                    None
                },
            },
            _ => None,
        }
    }

    /// Why the operation cannot be applied, if it cannot.
    pub fn check(&self, id: &OpID, op: &Operation) -> (e: Option<AutomergeError>)
        ensures
            e == check_op(self@, AppliedOpView { id: id@, op: op@ }),
    {
        if self.find(id).is_some() {
            return Some(AutomergeError::InvalidChange);
        }
        match self.object_type(&op.object) {
            None => Some(AutomergeError::MissingObject),
            Some(kind) => match self.check_key(id, op, kind) {
                Some(e) => Some(e),
                None => if !self.preds_known(id, op) {
                    Some(AutomergeError::InvalidChange)
                } else {
                    self.check_payload(op)
                },
            },
        }
    }

    /// Applies one operation: it joins the document, and the slot that it
    /// touches is returned. An operation that cannot be applied leaves the
    /// document as it was.
    pub fn apply_op(&mut self, id: OpID, op: Operation) -> (r: Result<Path, AutomergeError>)
        ensures
            doc_wf(old(self)@),
            doc_wf(final(self)@),
            match check_op(old(self)@, AppliedOpView { id: id@, op: op@ }) {
                Some(e) => r == Err::<Path, AutomergeError>(e) && final(self)@ == old(self)@,
                None => r is Ok && final(self)@ == add_op(
                    old(self)@,
                    AppliedOpView { id: id@, op: op@ },
                ) && r->Ok_0@ == (PathView {
                    object: op@.object,
                    key: slot_key(AppliedOpView { id: id@, op: op@ }),
                }) && splits(old(self)@, id@, insert_at(old(self)@, id@)),
            },
    {
        proof {
            use_type_invariant(&*self);
        }
        match self.check(&id, &op) {
            Some(e) => Err(e),
            None => {
                let ghost s = self@;
                let ghost r = AppliedOpView { id: id@, op: op@ };
                let mut k: usize = 0;
                while k < self.ops.len() && self.ops[k].id.rank(&id) == Rank::Before
                    invariant
                        k <= self.ops.len(),
                        self@ == s,
                        forall|j: int| 0 <= j < k ==> opid_lt(#[trigger] s[j].id, id@),
                    decreases self.ops.len() - k,
                {
                    k = k + 1;
                }
                let path = Path {
                    object: op.object.duplicate(),
                    key: if op.insert {
                        Key::Elem(ElementID::ID(id.duplicate()))
                    } else {
                        op.key.duplicate()
                    },
                };
                proof {
                    assert forall|j: int| k <= j < s.len() implies opid_lt(
                        id@,
                        #[trigger] s[j].id,
                    ) by {
                        assert(s[k as int].id != id@);
                        if j > k {
                            lemma_opid_lt_transitive(id@, s[k as int].id, s[j].id);
                        }
                    }
                    assert(splits(s, id@, k as int));
                    lemma_split_unique(s, id@, k as int);
                    lemma_insert_ascending(s, r, k as int);
                    lemma_add_op_valid(s, r);
                }
                let mut held: Vec<AppliedOp> = Vec::new();
                std::mem::swap(&mut self.ops, &mut held);
                assert(applied_view(held@) == s);
                held.insert(k, AppliedOp { id, op });
                assert(applied_view(held@) =~= s.insert(k as int, r));
                self.ops = held;
                Ok(path)
            },
        }
    }
}

} // verus!
