//! Reading the document, and the patches that tell an observer what it holds.
//!
//! The conflict set of a slot is every value written to it that no later
//! operation on the slot has overwritten or deleted, ascending by the
//! identifier of its writer; the last of them is the resolved value. A
//! counter adds up the increments aimed at it. The order of a list places
//! each element directly after the element it was inserted after, the
//! elements taken in ascending order of identifier, so that of several
//! elements inserted after the same one the greatest identifier comes first.

use crate::change::{contains_opid, opids_view, OpType};
use crate::document::{
    amount, in_slot, object_type, slot_key, AppliedOpView, DocView, Document, Path, PathView,
};
use crate::ids::{ElementID, ElementIdView, Key, KeyView, ObjType, ObjectID, ObjectIdView, OpID, OpIdView};
use crate::seqs::lemma_filter_map_step;
use crate::value::{value_from, Value, ValueView};
use vstd::prelude::*;

verus! {

/// `y` takes the value that `r` wrote out of its conflict set.
pub open spec fn overwrites(y: AppliedOpView, r: AppliedOpView) -> bool {
    y.op.action.retires() && y.op.pred.contains(r.id) && in_slot(y, r.op.object, slot_key(r))
}

/// Some operation of `s` overwrites `r`.
pub open spec fn overwritten(s: DocView, r: AppliedOpView) -> bool {
    exists|j: int| 0 <= j < s.len() && overwrites(#[trigger] s[j], r)
}

/// `r` wrote a value that still stands.
pub open spec fn live(s: DocView, r: AppliedOpView) -> bool {
    r.op.action.writes() && !overwritten(s, r)
}

/// `y` is an increment of the counter that `r` wrote.
pub open spec fn increments(y: AppliedOpView, r: AppliedOpView) -> bool {
    y.op.action == OpType::Inc && y.op.pred.contains(r.id) && in_slot(y, r.op.object, slot_key(r))
}

/// `base` and the increments of `r` among the first `n` operations, added up
/// in 64 bits.
pub open spec fn counted(s: DocView, r: AppliedOpView, base: i64, n: int) -> i64
    decreases n,
{
    if n <= 0 {
        base
    } else {
        let prev = counted(s, r, base, n - 1);
        if increments(s[n - 1], r) {
            match amount(s[n - 1].op) {
                Some(d) => prev.wrapping_add(d),
                None => prev,
            }
        } else {
            prev
        }
    }
}

/// What a `PatchValue` is in contracts.
pub enum PatchValueView {
    Scalar(ValueView),
    Object(ObjectIdView, ObjType),
}

/// What a slot holds: a scalar, or a container with its kind.
#[derive(Clone, Debug, PartialEq)]
pub enum PatchValue {
    Scalar(Value),
    Object(ObjectID, ObjType),
}

impl View for PatchValue {
    type V = PatchValueView;

    open spec fn view(&self) -> PatchValueView {
        match self {
            PatchValue::Scalar(v) => PatchValueView::Scalar(v@),
            PatchValue::Object(o, k) => PatchValueView::Object(o@, *k),
        }
    }
}

/// The kind of a container, taking an unknown one for a map.
pub open spec fn kind_of(s: DocView, object: ObjectIdView) -> ObjType {
    match object_type(s, object) {
        Some(k) => k,
        None => ObjType::Dict,
    }
}

/// The value that the writing operation `r` now stands for.
pub open spec fn current_value(s: DocView, r: AppliedOpView) -> PatchValueView {
    match r.op.action {
        OpType::Link => match r.op.child {
            Some(c) => PatchValueView::Object(c, kind_of(s, c)),
            None => PatchValueView::Scalar(ValueView::Null),
        },
        OpType::Assign => match value_from(r.op.value, r.op.datatype) {
            Some(ValueView::Counter(n)) => PatchValueView::Scalar(
                ValueView::Counter(counted(s, r, n, s.len() as int)),
            ),
            Some(v) => PatchValueView::Scalar(v),
            None => PatchValueView::Scalar(ValueView::Null),
        },
        a => match a.made() {
            Some(k) => PatchValueView::Object(ObjectIdView::ID(r.id), k),
            None => PatchValueView::Scalar(ValueView::Null),
        },
    }
}

/// What a `Conflict` is in contracts.
pub struct ConflictView {
    pub id: OpIdView,
    pub value: PatchValueView,
}

/// One member of a conflict set: a writer and what it wrote.
#[derive(Clone, Debug, PartialEq)]
pub struct Conflict {
    pub id: OpID,
    pub value: PatchValue,
}

impl View for Conflict {
    type V = ConflictView;

    open spec fn view(&self) -> ConflictView {
        ConflictView { id: self.id@, value: self.value@ }
    }
}

/// The views of a sequence of conflicts.
pub open spec fn conflicts_view(v: Seq<Conflict>) -> Seq<ConflictView> {
    v.map_values(|c: Conflict| c@)
}

/// Picks the members of the conflict set of a slot.
pub open spec fn conflict_pick(s: DocView, object: ObjectIdView, key: KeyView) -> spec_fn(
    AppliedOpView,
) -> Option<ConflictView> {
    |r: AppliedOpView|
        if in_slot(r, object, key) && live(s, r) {
            Some(ConflictView { id: r.id, value: current_value(s, r) })
        } else {
            None
        }
}

/// The conflict set of a slot, ascending by writer.
pub open spec fn conflicts(s: DocView, object: ObjectIdView, key: KeyView) -> Seq<ConflictView> {
    s.filter_map(conflict_pick(s, object, key))
}

/// The writer whose value the slot resolves to: the greatest of its conflict set.
pub open spec fn resolved(s: DocView, object: ObjectIdView, key: KeyView) -> Option<OpIdView> {
    let c = conflicts(s, object, key);
    if c.len() > 0 {
        Some(c.last().id)
    } else {
        None
    }
}

/// The slot holds at least one value.
pub open spec fn occupied(s: DocView, object: ObjectIdView, key: KeyView) -> bool {
    exists|i: int| 0 <= i < s.len() && in_slot(#[trigger] s[i], object, key) && live(s, s[i])
}

/// The first place of `a` in `q`, or the length of `q` where it is not there.
pub open spec fn position_of(q: Seq<OpIdView>, a: OpIdView) -> int
    decreases q.len(),
{
    if q.len() == 0 {
        0
    } else if q[0] == a {
        0
    } else {
        1 + position_of(q.drop_first(), a)
    }
}

/// The first place of an element is where nothing before it is that element.
pub proof fn lemma_position_of(q: Seq<OpIdView>, a: OpIdView, i: int)
    requires
        0 <= i <= q.len(),
        forall|j: int| 0 <= j < i ==> q[j] != a,
        i == q.len() || q[i] == a,
    ensures
        position_of(q, a) == i,
    decreases i,
{
    if i > 0 {
        let t = q.drop_first();
        assert forall|j: int| 0 <= j < i - 1 implies t[j] != a by {
            assert(t[j] == q[j + 1]);
        }
        lemma_position_of(t, a, i - 1);
    }
}

/// `q` with `id` put directly after `anchor`: at the front for the head, and
/// at the end where the anchor is not in `q`.
pub open spec fn place_after(q: Seq<OpIdView>, anchor: ElementIdView, id: OpIdView) -> Seq<
    OpIdView,
> {
    match anchor {
        ElementIdView::Head => q.insert(0, id),
        ElementIdView::ID(a) => {
            let p = position_of(q, a);
            if p < q.len() {
                q.insert(p + 1, id)
            } else {
                q.push(id)
            }
        },
    }
}

/// The elements of `object` among the first `n` operations, in list order.
pub open spec fn sequence_upto(s: DocView, object: ObjectIdView, n: int) -> Seq<OpIdView>
    decreases n,
{
    if n <= 0 {
        Seq::empty()
    } else {
        let prev = sequence_upto(s, object, n - 1);
        let r = s[n - 1];
        if r.op.insert && r.op.object == object {
            match r.op.key {
                KeyView::Elem(e) => place_after(prev, e, r.id),
                KeyView::Prop(_) => prev,
            }
        } else {
            prev
        }
    }
}

/// Every element ever inserted into `object`, deleted ones too, in list order.
pub open spec fn sequence(s: DocView, object: ObjectIdView) -> Seq<OpIdView> {
    sequence_upto(s, object, s.len() as int)
}

/// Picks the elements that hold a value.
pub open spec fn visible_pick(s: DocView, object: ObjectIdView) -> spec_fn(OpIdView) -> Option<
    OpIdView,
> {
    |e: OpIdView|
        if occupied(s, object, KeyView::Elem(ElementIdView::ID(e))) {
            Some(e)
        } else {
            None
        }
}

/// The elements of `object` that hold a value, in list order.
pub open spec fn visible(s: DocView, object: ObjectIdView) -> Seq<OpIdView> {
    sequence(s, object).filter_map(visible_pick(s, object))
}

/// What a `PropPatch` is in contracts.
pub struct PropPatchView {
    pub object: ObjectIdView,
    pub key: KeyView,
    pub conflicts: Seq<ConflictView>,
    pub resolved: Option<OpIdView>,
}

/// The state of one slot: its conflict set and the writer it resolves to. An
/// empty conflict set says that the key or element is gone.
#[derive(Clone, Debug, PartialEq)]
pub struct PropPatch {
    pub object: ObjectID,
    pub key: Key,
    pub conflicts: Vec<Conflict>,
    pub resolved: Option<OpID>,
}

/// The view of an optional operation identifier.
pub open spec fn opt_opid_view(v: Option<OpID>) -> Option<OpIdView> {
    match v {
        Some(x) => Some(x@),
        None => None,
    }
}

impl View for PropPatch {
    type V = PropPatchView;

    open spec fn view(&self) -> PropPatchView {
        PropPatchView {
            object: self.object@,
            key: self.key@,
            conflicts: conflicts_view(self.conflicts@),
            resolved: opt_opid_view(self.resolved),
        }
    }
}

/// What a `ListPatch` is in contracts.
pub struct ListPatchView {
    pub object: ObjectIdView,
    pub elements: Seq<OpIdView>,
}

/// The state of one list or text: its elements that hold a value, in order.
#[derive(Clone, Debug, PartialEq)]
pub struct ListPatch {
    pub object: ObjectID,
    pub elements: Vec<OpID>,
}

impl View for ListPatch {
    type V = ListPatchView;

    open spec fn view(&self) -> ListPatchView {
        ListPatchView { object: self.object@, elements: opids_view(self.elements@) }
    }
}

/// What a `Patch` is in contracts.
pub struct PatchView {
    pub props: Seq<PropPatchView>,
    pub lists: Seq<ListPatchView>,
}

/// What the document now holds at a set of slots, and in the lists they are in.
#[derive(Clone, Debug, PartialEq)]
pub struct Patch {
    pub props: Vec<PropPatch>,
    pub lists: Vec<ListPatch>,
}

impl View for Patch {
    type V = PatchView;

    open spec fn view(&self) -> PatchView {
        PatchView {
            props: self.props@.map_values(|p: PropPatch| p@),
            lists: self.lists@.map_values(|l: ListPatch| l@),
        }
    }
}

/// The views of a sequence of paths.
pub open spec fn paths_view(v: Seq<Path>) -> Seq<PathView> {
    v.map_values(|p: Path| p@)
}

/// The state of the slot at `p`.
pub open spec fn prop_of(s: DocView, p: PathView) -> PropPatchView {
    PropPatchView {
        object: p.object,
        key: p.key,
        conflicts: conflicts(s, p.object, p.key),
        resolved: resolved(s, p.object, p.key),
    }
}

/// The state of the list `object`.
pub open spec fn list_of(s: DocView, object: ObjectIdView) -> ListPatchView {
    ListPatchView { object, elements: visible(s, object) }
}

/// The first `n` of `paths`, each kept where it first occurs.
pub open spec fn distinct_upto(paths: Seq<PathView>, n: int) -> Seq<PathView>
    decreases n,
{
    if n <= 0 {
        Seq::empty()
    } else {
        let prev = distinct_upto(paths, n - 1);
        if prev.contains(paths[n - 1]) {
            prev
        } else {
            prev.push(paths[n - 1])
        }
    }
}

/// The lists and texts that the first `n` of `paths` lie in, each once.
pub open spec fn lists_upto(s: DocView, paths: Seq<PathView>, n: int) -> Seq<ObjectIdView>
    decreases n,
{
    if n <= 0 {
        Seq::empty()
    } else {
        let prev = lists_upto(s, paths, n - 1);
        let o = paths[n - 1].object;
        if kind_of(s, o).is_sequence() && !prev.contains(o) {
            prev.push(o)
        } else {
            prev
        }
    }
}

/// The patch for a set of touched slots: the state of each slot, once, and
/// the order of each list that one of them lies in.
pub open spec fn patch_of(s: DocView, paths: Seq<PathView>) -> PatchView {
    PatchView {
        props: distinct_upto(paths, paths.len() as int).map_values(|p: PathView| prop_of(s, p)),
        lists: lists_upto(s, paths, paths.len() as int).map_values(
            |o: ObjectIdView| list_of(s, o),
        ),
    }
}

/// Picks the slot of each value that still stands.
pub open spec fn live_pick(s: DocView) -> spec_fn(AppliedOpView) -> Option<PathView> {
    |r: AppliedOpView|
        if live(s, r) {
            Some(PathView { object: r.op.object, key: slot_key(r) })
        } else {
            None
        }
}

/// The slots of the document that hold a value.
pub open spec fn live_paths(s: DocView) -> Seq<PathView> {
    s.filter_map(live_pick(s))
}

/// The patch that shows the whole document.
pub open spec fn full_patch(s: DocView) -> PatchView {
    patch_of(s, live_paths(s))
}

/// Whether `p` is among `v`.
fn contains_path(v: &Vec<Path>, p: &Path) -> (b: bool)
    ensures
        b == paths_view(v@).contains(p@),
{
    let mut i: usize = 0;
    while i < v.len()
        invariant
            i <= v.len(),
            forall|j: int| 0 <= j < i ==> paths_view(v@)[j] != p@,
        decreases v.len() - i,
    {
        if v[i].same(p) {
            assert(paths_view(v@)[i as int] == p@);
            return true;
        }
        i = i + 1;
    }
    false
}

/// The views of a sequence of container identifiers.
pub open spec fn objects_view(v: Seq<ObjectID>) -> Seq<ObjectIdView> {
    v.map_values(|o: ObjectID| o@)
}

/// Whether `o` is among `v`.
fn contains_object(v: &Vec<ObjectID>, o: &ObjectID) -> (b: bool)
    ensures
        b == objects_view(v@).contains(o@),
{
    let mut i: usize = 0;
    while i < v.len()
        invariant
            i <= v.len(),
            forall|j: int| 0 <= j < i ==> objects_view(v@)[j] != o@,
        decreases v.len() - i,
    {
        if v[i].same(o) {
            assert(objects_view(v@)[i as int] == o@);
            return true;
        }
        i = i + 1;
    }
    false
}

impl Document {
    /// Whether the operation at place `j` is aimed at the slot of the one at
    /// place `i` and names it as a predecessor.
    fn aims_at(&self, j: usize, i: usize) -> (b: bool)
        requires
            i < self@.len(),
            j < self@.len(),
        ensures
            b == (self@[j as int].op.pred.contains(self@[i as int].id) && in_slot(
                self@[j as int],
                self@[i as int].op.object,
                slot_key(self@[i as int]),
            )),
    {
        let y = self.get(j);
        let r = self.get(i);
        contains_opid(&y.op.predecessors, &r.id) && y.op.object.same(&r.op.object) && y.slot().same(&r.slot())
    }

    /// Whether the value written by the operation at place `i` has been
    /// overwritten or deleted.
    pub fn is_overwritten(&self, i: usize) -> (b: bool)
        requires
            i < self@.len(),
        ensures
            b == overwritten(self@, self@[i as int]),
    {
        let mut j: usize = 0;
        while j < self.len()
            invariant
                j <= self@.len(),
                i < self@.len(),
                forall|m: int| 0 <= m < j ==> !overwrites(#[trigger] self@[m], self@[i as int]),
            decreases self@.len() - j,
        {
            if self.get(j).op.action.is_retiring() && self.aims_at(j, i) {
                assert(overwrites(self@[j as int], self@[i as int]));
                return true;
            }
            j = j + 1;
        }
        false
    }

    /// Whether the operation at place `i` wrote a value that still stands.
    pub fn is_live(&self, i: usize) -> (b: bool)
        requires
            i < self@.len(),
        ensures
            b == live(self@, self@[i as int]),
    {
        self.get(i).op.action.is_write() && !self.is_overwritten(i)
    }

    /// The counter that the operation at place `i` wrote, with its increments.
    fn counter_value(&self, i: usize, base: i64) -> (n: i64)
        requires
            i < self@.len(),
        ensures
            n == counted(self@, self@[i as int], base, self@.len() as int),
    {
        let mut n: i64 = base;
        let mut j: usize = 0;
        while j < self.len()
            invariant
                j <= self@.len(),
                i < self@.len(),
                n == counted(self@, self@[i as int], base, j as int),
            decreases self@.len() - j,
        {
            let y = self.get(j);
            let is_inc = match y.op.action {
                OpType::Inc => true,
                _ => false,
            };
            if is_inc && self.aims_at(j, i) {
                let d = match &y.op.value {
                    Some(v) => v.to_i64(),
                    None => None,
                };
                match d {
                    Some(d) => {
                        n = n.wrapping_add(d);
                    },
                    None => {},
                }
            }
            j = j + 1;
        }
        n
    }

    /// The kind of a container, taking an unknown one for a map.
    fn kind_or_map(&self, object: &ObjectID) -> (k: ObjType)
        ensures
            k == kind_of(self@, object@),
    {
        match self.object_type(object) {
            Some(k) => k,
            None => ObjType::Dict,
        }
    }

    /// The value that the writing operation at place `i` now stands for.
    pub fn value_at(&self, i: usize) -> (v: PatchValue)
        requires
            i < self@.len(),
        ensures
            v@ == current_value(self@, self@[i as int]),
    {
        let r = self.get(i);
        match r.op.action {
            OpType::Link => match &r.op.child {
                Some(c) => PatchValue::Object(c.duplicate(), self.kind_or_map(c)),
                None => PatchValue::Scalar(Value::Null),
            },
            OpType::Assign => {
                let base = Value::from(
                    match &r.op.value {
                        Some(v) => Some(v.duplicate()),
                        None => None,
                    },
                    r.op.datatype,
                );
                match base {
                    Some(Value::Counter(n)) => PatchValue::Scalar(
                        Value::Counter(self.counter_value(i, n)),
                    ),
                    Some(v) => PatchValue::Scalar(v),
                    None => PatchValue::Scalar(Value::Null),
                }
            },
            a => match a.makes() {
                Some(k) => PatchValue::Object(ObjectID::ID(r.id.duplicate()), k),
                None => PatchValue::Scalar(Value::Null),
            },
        }
    }

    /// The conflict set of a slot.
    pub fn conflicts(&self, object: &ObjectID, key: &Key) -> (r: Vec<Conflict>)
        ensures
            conflicts_view(r@) == conflicts(self@, object@, key@),
    {
        let ghost f = conflict_pick(self@, object@, key@);
        let mut out: Vec<Conflict> = Vec::new();
        let mut i: usize = 0;
        assert(self@.take(0).filter_map(f) =~= Seq::empty());
        while i < self.len()
            invariant
                i <= self@.len(),
                f == conflict_pick(self@, object@, key@),
                conflicts_view(out@) =~= self@.take(i as int).filter_map(f),
            decreases self@.len() - i,
        {
            let r = self.get(i);
            proof {
                lemma_filter_map_step(self@, f, i as int);
            }
            if r.op.object.same(object) && r.slot().same(key) && self.is_live(i) {
                let c = Conflict { id: r.id.duplicate(), value: self.value_at(i) };
                out.push(c);
            }
            i = i + 1;
        }
        assert(self@.take(self@.len() as int) =~= self@);
        out
    }

    /// Whether the slot holds at least one value.
    pub fn is_occupied(&self, object: &ObjectID, key: &Key) -> (b: bool)
        ensures
            b == occupied(self@, object@, key@),
    {
        let mut i: usize = 0;
        while i < self.len()
            invariant
                i <= self@.len(),
                forall|m: int|
                    0 <= m < i ==> !(in_slot(#[trigger] self@[m], object@, key@) && live(
                        self@,
                        self@[m],
                    )),
            decreases self@.len() - i,
        {
            let r = self.get(i);
            if r.op.object.same(object) && r.slot().same(key) && self.is_live(i) {
                return true;
            }
            i = i + 1;
        }
        false
    }

    /// Every element ever inserted into a list or text, in list order.
    pub fn elements(&self, object: &ObjectID) -> (r: Vec<OpID>)
        ensures
            opids_view(r@) == sequence(self@, object@),
    {
        let mut out: Vec<OpID> = Vec::new();
        let mut i: usize = 0;
        while i < self.len()
            invariant
                i <= self@.len(),
                opids_view(out@) =~= sequence_upto(self@, object@, i as int),
            decreases self@.len() - i,
        {
            let r = self.get(i);
            if r.op.insert && r.op.object.same(object) {
                match &r.op.key {
                    Key::Elem(ElementID::Head) => {
                        out.insert(0, r.id.duplicate());
                    },
                    Key::Elem(ElementID::ID(a)) => {
                        let mut p: usize = 0;
                        while p < out.len() && !out[p].same(a)
                            invariant
                                p <= out.len(),
                                forall|j: int| 0 <= j < p ==> opids_view(out@)[j] != a@,
                            decreases out.len() - p,
                        {
                            p = p + 1;
                        }
                        proof {
                            lemma_position_of(opids_view(out@), a@, p as int);
                        }
                        if p < out.len() {
                            out.insert(p + 1, r.id.duplicate());
                        } else {
                            out.push(r.id.duplicate());
                        }
                    },
                    Key::Prop(_) => {},
                }
            }
            i = i + 1;
        }
        out
    }

    /// The elements of a list or text that hold a value, in list order.
    pub fn visible_elements(&self, object: &ObjectID) -> (r: Vec<OpID>)
        ensures
            opids_view(r@) == visible(self@, object@),
    {
        let all = self.elements(object);
        let ghost f = visible_pick(self@, object@);
        let ghost q = opids_view(all@);
        let mut out: Vec<OpID> = Vec::new();
        let mut i: usize = 0;
        assert(q.take(0).filter_map(f) =~= Seq::empty());
        while i < all.len()
            invariant
                i <= all.len(),
                q == opids_view(all@),
                q == sequence(self@, object@),
                f == visible_pick(self@, object@),
                opids_view(out@) =~= q.take(i as int).filter_map(f),
            decreases all.len() - i,
        {
            proof {
                lemma_filter_map_step(q, f, i as int);
            }
            let key = Key::Elem(ElementID::ID(all[i].duplicate()));
            if self.is_occupied(object, &key) {
                out.push(all[i].duplicate());
            }
            i = i + 1;
        }
        assert(q.take(q.len() as int) =~= q);
        out
    }

    /// The state of one slot.
    pub fn prop(&self, path: &Path) -> (r: PropPatch)
        ensures
            r@ == prop_of(self@, path@),
    {
        let conflicts = self.conflicts(&path.object, &path.key);
        let resolved = if conflicts.len() > 0 {
            Some(conflicts[conflicts.len() - 1].id.duplicate())
        } else {
            None
        };
        PropPatch {
            object: path.object.duplicate(),
            key: path.key.duplicate(),
            conflicts,
            resolved,
        }
    }

    /// The patch for the slots in `paths`.
    pub fn diff(&self, paths: &Vec<Path>) -> (r: Patch)
        ensures
            r@ == patch_of(self@, paths_view(paths@)),
    {
        let ghost pv = paths_view(paths@);
        let mut seen: Vec<Path> = Vec::new();
        let mut lists: Vec<ObjectID> = Vec::new();
        let mut i: usize = 0;
        while i < paths.len()
            invariant
                i <= paths.len(),
                pv == paths_view(paths@),
                paths_view(seen@) =~= distinct_upto(pv, i as int),
                objects_view(lists@) =~= lists_upto(self@, pv, i as int),
            decreases paths.len() - i,
        {
            let p = &paths[i];
            assert(pv[i as int] == p@);
            if !contains_path(&seen, p) {
                seen.push(p.duplicate());
            }
            if self.kind_or_map(&p.object).holds_sequence() && !contains_object(&lists, &p.object) {
                lists.push(p.object.duplicate());
            }
            i = i + 1;
        }
        let mut props: Vec<PropPatch> = Vec::new();
        let mut j: usize = 0;
        while j < seen.len()
            invariant
                j <= seen.len(),
                props.len() == j,
                forall|m: int| 0 <= m < j ==> props[m]@ == prop_of(self@, #[trigger] seen[m]@),
            decreases seen.len() - j,
        {
            props.push(self.prop(&seen[j]));
            j = j + 1;
        }
        let mut orders: Vec<ListPatch> = Vec::new();
        let mut k: usize = 0;
        while k < lists.len()
            invariant
                k <= lists.len(),
                orders.len() == k,
                forall|m: int| 0 <= m < k ==> orders[m]@ == list_of(self@, #[trigger] lists[m]@),
            decreases lists.len() - k,
        {
            orders.push(
                ListPatch {
                    object: lists[k].duplicate(),
                    elements: self.visible_elements(&lists[k]),
                },
            );
            k = k + 1;
        }
        let r = Patch { props, lists: orders };
        assert(r@.props =~= patch_of(self@, pv).props);
        assert(r@.lists =~= patch_of(self@, pv).lists);
        r
    }

    /// The slots that hold a value.
    pub fn live_paths(&self) -> (r: Vec<Path>)
        ensures
            paths_view(r@) == live_paths(self@),
    {
        let ghost f = live_pick(self@);
        let mut out: Vec<Path> = Vec::new();
        let mut i: usize = 0;
        assert(self@.take(0).filter_map(f) =~= Seq::empty());
        while i < self.len()
            invariant
                i <= self@.len(),
                f == live_pick(self@),
                paths_view(out@) =~= self@.take(i as int).filter_map(f),
            decreases self@.len() - i,
        {
            proof {
                lemma_filter_map_step(self@, f, i as int);
            }
            if self.is_live(i) {
                let r = self.get(i);
                out.push(Path { object: r.op.object.duplicate(), key: r.slot() });
            }
            i = i + 1;
        }
        assert(self@.take(self@.len() as int) =~= self@);
        out
    }

    /// The patch that shows the whole document.
    pub fn full_patch(&self) -> (r: Patch)
        ensures
            r@ == full_patch(self@),
    {
        let paths = self.live_paths();
        self.diff(&paths)
    }
}

} // verus!
