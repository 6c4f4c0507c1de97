//! What holds of every document: how an operation changes the conflict set
//! of the slot it is aimed at, and which value a slot resolves to.

use crate::document::{
    add_op, amount, check_key, check_op, doc_wf, has_op, in_slot, is_element, is_entry,
    lemma_add_op, lemma_index_unique, lemma_split_exists,
    lemma_split_unique, object_type, op_index, slot_key, well_placed, AppliedOpView, DocView,
};
use crate::ids::{
    lemma_opid_lt_asymmetric, opid_lt, ElementIdView, KeyView, ObjectIdView, OpIdView,
};
use crate::patch::{
    conflict_pick, conflicts, counted, increments, live, overwrites, overwritten, place_after,
    position_of, resolved, sequence, sequence_upto,
};
use crate::seqs::{lemma_filter_map_holds, lemma_filter_map_order, lemma_filter_map_source};
use vstd::prelude::*;

verus! {

/// The operation `id` has written to the slot a value that still stands.
pub open spec fn stands(s: DocView, object: ObjectIdView, key: KeyView, id: OpIdView) -> bool {
    exists|i: int|
        0 <= i < s.len() && (#[trigger] s[i]).id == id && in_slot(s[i], object, key) && live(
            s,
            s[i],
        )
}

/// No operation of a well-formed document names as a predecessor an
/// operation that is not in the document.
pub proof fn lemma_preds_in_doc(s: DocView, y: AppliedOpView, id: OpIdView)
    requires
        well_placed(s, y),
        y.op.pred.contains(id),
    ensures
        has_op(s, id),
{
    let k = choose|k: int| 0 <= k < y.op.pred.len() && y.op.pred[k] == id;
    assert(is_entry(s, y.op.object, slot_key(y), y.op.pred[k]));
}

/// How an operation that joins the document changes which values stand:
/// its own value stands if it writes one, and a value that stood still
/// stands unless the operation overwrites it.
pub proof fn law_apply_live(s: DocView, r: AppliedOpView)
    requires
        doc_wf(s),
        check_op(s, r) is None,
    ensures
        live(add_op(s, r), r) == r.op.action.writes(),
        forall|x: AppliedOpView| #[trigger]
            s.contains(x) ==> (live(add_op(s, r), x) <==> live(s, x) && !overwrites(r, x)),
{
    let t = add_op(s, r);
    lemma_add_op(s, r);
    assert(!overwritten(t, r)) by {
        if overwritten(t, r) {
            let j = choose|j: int| 0 <= j < t.len() && overwrites(#[trigger] t[j], r);
            let y = t[j];
            assert(t.contains(y));
            if y == r {
                lemma_preds_in_doc(s, r, r.id);
            } else {
                assert(s.contains(y));
                let m = choose|m: int| 0 <= m < s.len() && s[m] == y;
                assert(well_placed(s, s[m]));
                lemma_preds_in_doc(s, y, r.id);
            }
        }
    }
    assert forall|x: AppliedOpView| #[trigger] s.contains(x) implies (live(t, x) <==> live(s, x)
        && !overwrites(r, x)) by {
        if overwritten(s, x) {
            let j = choose|j: int| 0 <= j < s.len() && overwrites(#[trigger] s[j], x);
            assert(s.contains(s[j]));
            assert(t.contains(s[j]));
            let m = choose|m: int| 0 <= m < t.len() && t[m] == s[j];
            assert(overwrites(t[m], x));
        }
        if overwrites(r, x) {
            assert(t.contains(r));
            let m = choose|m: int| 0 <= m < t.len() && t[m] == r;
            assert(overwrites(t[m], x));
        }
        if overwritten(t, x) {
            let j = choose|j: int| 0 <= j < t.len() && overwrites(#[trigger] t[j], x);
            assert(t.contains(t[j]));
            if t[j] != r {
                assert(s.contains(t[j]));
                let m = choose|m: int| 0 <= m < s.len() && s[m] == t[j];
                assert(overwrites(s[m], x));
            }
        }
    }
}

/// The rule of writing and deleting: after an operation has joined the
/// document, the values that stand in a slot are the value it wrote, if it
/// wrote to that slot, and the values that stood there before, but for the
/// predecessors that the operation names where it overwrites or deletes in
/// that slot. No other slot changes.
pub proof fn law_conflict_set_after(
    s: DocView,
    r: AppliedOpView,
    object: ObjectIdView,
    key: KeyView,
    id: OpIdView,
)
    requires
        doc_wf(s),
        check_op(s, r) is None,
    ensures
        stands(add_op(s, r), object, key, id) <==> (id == r.id && r.op.action.writes() && in_slot(
            r,
            object,
            key,
        )) || (stands(s, object, key, id) && !(r.op.action.retires() && in_slot(r, object, key)
            && r.op.pred.contains(id))),
{
    let t = add_op(s, r);
    lemma_add_op(s, r);
    law_apply_live(s, r);
    if stands(t, object, key, id) {
        let i = choose|i: int|
            0 <= i < t.len() && (#[trigger] t[i]).id == id && in_slot(t[i], object, key) && live(
                t,
                t[i],
            );
        let x = t[i];
        assert(t.contains(x));
        if x != r {
            assert(s.contains(x));
            let m = choose|m: int| 0 <= m < s.len() && s[m] == x;
            assert(s[m].id == id && in_slot(s[m], object, key) && live(s, s[m]));
        }
    }
    if stands(s, object, key, id) {
        let i = choose|i: int|
            0 <= i < s.len() && (#[trigger] s[i]).id == id && in_slot(s[i], object, key) && live(
                s,
                s[i],
            );
        let x = s[i];
        assert(s.contains(x));
        assert(t.contains(x));
        let m = choose|m: int| 0 <= m < t.len() && t[m] == x;
        if !overwrites(r, x) {
            assert(t[m].id == id && in_slot(t[m], object, key) && live(t, t[m]));
        }
    }
    if id == r.id && r.op.action.writes() && in_slot(r, object, key) {
        assert(t.contains(r));
        let m = choose|m: int| 0 <= m < t.len() && t[m] == r;
        assert(t[m].id == id && in_slot(t[m], object, key) && live(t, t[m]));
    }
    if id == r.id && stands(s, object, key, id) {
        let i = choose|i: int|
            0 <= i < s.len() && (#[trigger] s[i]).id == id && in_slot(s[i], object, key) && live(
                s,
                s[i],
            );
        assert(has_op(s, r.id));
    }
}

/// The conflict set of a slot holds a value for each operation whose value
/// stands in the slot, and for no other.
pub proof fn law_conflict_set_members(
    s: DocView,
    object: ObjectIdView,
    key: KeyView,
    id: OpIdView,
)
    ensures
        stands(s, object, key, id) <==> exists|i: int|
            0 <= i < conflicts(s, object, key).len() && (#[trigger] conflicts(
                s,
                object,
                key,
            )[i]).id == id,
{
    let f = conflict_pick(s, object, key);
    let c = conflicts(s, object, key);
    if stands(s, object, key, id) {
        let a = choose|a: int|
            0 <= a < s.len() && (#[trigger] s[a]).id == id && in_slot(s[a], object, key) && live(
                s,
                s[a],
            );
        let i = lemma_filter_map_holds(s, f, a);
        assert(c[i].id == id);
    }
    if exists|i: int| 0 <= i < c.len() && (#[trigger] c[i]).id == id {
        let i = choose|i: int| 0 <= i < c.len() && (#[trigger] c[i]).id == id;
        let a = lemma_filter_map_source(s, f, i);
        assert(s[a].id == id && in_slot(s[a], object, key) && live(s, s[a]));
    }
}

/// The conflict set of a slot ascends by writer, so the writer that the
/// slot resolves to is the greatest of them.
pub proof fn law_resolved_is_greatest(s: DocView, object: ObjectIdView, key: KeyView, i: int)
    requires
        doc_wf(s),
        0 <= i < conflicts(s, object, key).len(),
    ensures
        resolved(s, object, key) is Some,
        conflicts(s, object, key)[i].id == resolved(s, object, key)->0 || opid_lt(
            conflicts(s, object, key)[i].id,
            resolved(s, object, key)->0,
        ),
{
    let f = conflict_pick(s, object, key);
    let c = conflicts(s, object, key);
    if i < c.len() - 1 {
        let ab = lemma_filter_map_order(s, f, i, c.len() - 1);
        assert(opid_lt(s[ab.0].id, s[ab.1].id));
    }
}

/// Adding wraps around in the same way whichever of two amounts comes first.
pub proof fn lemma_wrapping_swap(a: i64, d: i64, e: i64)
    ensures
        a.wrapping_add(d).wrapping_add(e) == a.wrapping_add(e).wrapping_add(d),
{
}

/// The counter `v` after the operation `y`, which may be an increment of
/// the counter that `x` wrote.
pub open spec fn bumped(y: AppliedOpView, x: AppliedOpView, v: i64) -> i64 {
    if increments(y, x) {
        match amount(y.op) {
            Some(d) => v.wrapping_add(d),
            None => v,
        }
    } else {
        v
    }
}

/// The count over the first `n` operations looks at those operations only.
pub proof fn lemma_counted_prefix(s: DocView, t: DocView, x: AppliedOpView, base: i64, n: int)
    requires
        0 <= n <= s.len(),
        n <= t.len(),
        forall|i: int| 0 <= i < n ==> s[i] == t[i],
    ensures
        counted(s, x, base, n) == counted(t, x, base, n),
    decreases n,
{
    if n > 0 {
        lemma_counted_prefix(s, t, x, base, n - 1);
    }
}

/// An operation put anywhere into the document counts as if it came last.
pub proof fn lemma_counted_insert(
    s: DocView,
    r: AppliedOpView,
    x: AppliedOpView,
    base: i64,
    k: int,
    n: int,
)
    requires
        0 <= k <= n <= s.len(),
    ensures
        counted(s.insert(k, r), x, base, n + 1) == bumped(r, x, counted(s, x, base, n)),
    decreases n - k,
{
    let t = s.insert(k, r);
    if n == k {
        lemma_counted_prefix(t, s, x, base, k);
        assert(t[k] == r);
    } else {
        lemma_counted_insert(s, r, x, base, k, n - 1);
        assert(t[n] == s[n - 1]);
        let v = counted(s, x, base, n - 1);
        assert(counted(t, x, base, n + 1) == bumped(s[n - 1], x, bumped(r, x, v)));
        assert(counted(s, x, base, n) == bumped(s[n - 1], x, v));
        if increments(r, x) && increments(s[n - 1], x) {
            match (amount(r.op), amount(s[n - 1].op)) {
                (Some(d), Some(e)) => {
                    lemma_wrapping_swap(v, d, e);
                },
                _ => {},
            }
        }
    }
}

/// The rule of counters: an increment that joins the document adds its
/// amount to each counter it is aimed at, and any other operation leaves
/// every count as it was.
pub proof fn law_increment(s: DocView, r: AppliedOpView, x: AppliedOpView, base: i64)
    requires
        doc_wf(s),
        check_op(s, r) is None,
    ensures
        counted(add_op(s, r), x, base, add_op(s, r).len() as int) == if increments(r, x) {
            counted(s, x, base, s.len() as int).wrapping_add(amount(r.op)->0)
        } else {
            counted(s, x, base, s.len() as int)
        },
{
    let k = lemma_split_exists(s, r.id);
    lemma_split_unique(s, r.id, k);
    lemma_counted_insert(s, r, x, base, k, s.len() as int);
}

/// The element that `e` was inserted after.
pub open spec fn anchor_of(s: DocView, e: OpIdView) -> ElementIdView {
    match s[op_index(s, e)].op.key {
        KeyView::Elem(a) => a,
        KeyView::Prop(_) => ElementIdView::Head,
    }
}

/// One of the first `n` operations has inserted `e` into `object`.
pub open spec fn inserted_before(s: DocView, object: ObjectIdView, e: OpIdView, n: int) -> bool {
    exists|i: int|
        0 <= i < n && (#[trigger] s[i]).id == e && s[i].op.insert && s[i].op.object == object
}

/// `q` holds the elements that the first `n` operations have inserted into `object`.
pub open spec fn holds_elements(s: DocView, object: ObjectIdView, q: Seq<OpIdView>, n: int) -> bool {
    forall|e: OpIdView| #[trigger] q.contains(e) <==> inserted_before(s, object, e, n)
}

/// No element is in `q` twice.
pub open spec fn no_repeats(q: Seq<OpIdView>) -> bool {
    forall|i: int, j: int| 0 <= i < j < q.len() ==> #[trigger] q[i] != #[trigger] q[j]
}

/// Every element of `q` comes after the element it was inserted after.
pub open spec fn after_anchors(s: DocView, q: Seq<OpIdView>) -> bool {
    forall|i: int|
        0 <= i < q.len() ==> match anchor_of(s, #[trigger] q[i]) {
            ElementIdView::ID(a) => exists|j: int| 0 <= j < i && #[trigger] q[j] == a,
            ElementIdView::Head => true,
        }
}

/// Of two elements of `q` with the same anchor, the one with the greater
/// identifier comes first.
pub open spec fn greater_first(s: DocView, q: Seq<OpIdView>) -> bool {
    forall|i: int, j: int|
        0 <= i < q.len() && 0 <= j < q.len() && anchor_of(s, #[trigger] q[i]) == anchor_of(
            s,
            #[trigger] q[j],
        ) && opid_lt(q[j], q[i]) ==> i < j
}

/// `q` holds the elements that the first `n` operations have inserted into
/// `object`, each once, each after the element it was inserted after, and
/// of two with the same anchor the one with the greater identifier first.
pub open spec fn list_ordered(s: DocView, object: ObjectIdView, q: Seq<OpIdView>, n: int) -> bool {
    &&& holds_elements(s, object, q, n)
    &&& no_repeats(q)
    &&& after_anchors(s, q)
    &&& greater_first(s, q)
}

/// An element that is in `q` is found at its first place.
pub proof fn lemma_position_found(q: Seq<OpIdView>, a: OpIdView)
    requires
        q.contains(a),
    ensures
        0 <= position_of(q, a) < q.len(),
        q[position_of(q, a)] == a,
    decreases q.len(),
{
    if q[0] != a {
        let t = q.drop_first();
        let i = choose|i: int| 0 <= i < q.len() && q[i] == a;
        assert(t[i - 1] == a);
        lemma_position_found(t, a);
        assert(t[position_of(t, a)] == q[position_of(t, a) + 1]);
    }
}

/// `c` is the place directly after the anchor in `q`.
pub open spec fn after_anchor(q: Seq<OpIdView>, anchor: ElementIdView, c: int) -> bool {
    match anchor {
        ElementIdView::Head => c == 0,
        ElementIdView::ID(a) => 1 <= c <= q.len() && q[c - 1] == a,
    }
}

/// A list with one more element holds the elements of one more operation.
proof fn lemma_place_elements(
    s: DocView,
    object: ObjectIdView,
    q: Seq<OpIdView>,
    n: int,
    c: int,
)
    requires
        0 <= n < s.len(),
        0 <= c <= q.len(),
        holds_elements(s, object, q, n),
        s[n].op.insert,
        s[n].op.object == object,
    ensures
        holds_elements(s, object, q.insert(c, s[n].id), n + 1),
{
    let t = q.insert(c, s[n].id);
    assert(t[c] == s[n].id);
    assert forall|e: OpIdView| #[trigger] t.contains(e) <==> inserted_before(
        s,
        object,
        e,
        n + 1,
    ) by {
        if t.contains(e) {
            let i = choose|i: int| 0 <= i < t.len() && t[i] == e;
            if i < c {
                assert(q[i] == e);
                assert(q.contains(e));
            } else if i > c {
                assert(q[i - 1] == e);
                assert(q.contains(e));
            }
            if q.contains(e) {
                assert(inserted_before(s, object, e, n));
                let m = choose|m: int|
                    0 <= m < n && (#[trigger] s[m]).id == e && s[m].op.insert && s[m].op.object
                        == object;
                assert(0 <= m < n + 1 && s[m].id == e);
            } else {
                assert(0 <= n < n + 1 && s[n].id == e);
            }
        }
        if inserted_before(s, object, e, n + 1) {
            let m = choose|m: int|
                0 <= m < n + 1 && (#[trigger] s[m]).id == e && s[m].op.insert && s[m].op.object
                    == object;
            if m < n {
                assert(inserted_before(s, object, e, n));
                assert(q.contains(e));
                let i = choose|i: int| 0 <= i < q.len() && q[i] == e;
                if i < c {
                    assert(t[i] == e);
                } else {
                    assert(t[i + 1] == e);
                }
            }
        }
    }
}

/// A new element put into a list without repeats leaves it without repeats.
proof fn lemma_place_no_repeats(q: Seq<OpIdView>, v: OpIdView, c: int)
    requires
        0 <= c <= q.len(),
        no_repeats(q),
        forall|i: int| 0 <= i < q.len() ==> #[trigger] q[i] != v,
    ensures
        no_repeats(q.insert(c, v)),
{
    let t = q.insert(c, v);
    assert forall|i: int, j: int| 0 <= i < j < t.len() implies #[trigger] t[i] != #[trigger] t[j] by {
        let oi = if i < c { i } else { i - 1 };
        let oj = if j < c { j } else { j - 1 };
        if i != c && j != c {
            assert(q[oi] != q[oj]);
        } else if i == c {
            assert(q[oj] != v);
        } else {
            assert(q[oi] != v);
        }
    }
}

/// An element put directly after its anchor leaves every element after its anchor.
proof fn lemma_place_after_anchors(s: DocView, q: Seq<OpIdView>, v: OpIdView, c: int)
    requires
        0 <= c <= q.len(),
        after_anchors(s, q),
        after_anchor(q, anchor_of(s, v), c),
    ensures
        after_anchors(s, q.insert(c, v)),
{
    let t = q.insert(c, v);
    assert forall|i: int| 0 <= i < t.len() implies match anchor_of(s, #[trigger] t[i]) {
        ElementIdView::ID(a) => exists|j: int| 0 <= j < i && #[trigger] t[j] == a,
        ElementIdView::Head => true,
    } by {
        if i == c {
            match anchor_of(s, v) {
                ElementIdView::Head => {},
                ElementIdView::ID(a) => {
                    assert(t[c - 1] == a);
                },
            }
        } else {
            let oi = if i < c { i } else { i - 1 };
            assert(t[i] == q[oi]);
            match anchor_of(s, q[oi]) {
                ElementIdView::Head => {},
                ElementIdView::ID(b) => {
                    let oj = choose|oj: int| 0 <= oj < oi && #[trigger] q[oj] == b;
                    let j = if oj < c { oj } else { oj + 1 };
                    assert(t[j] == b);
                },
            }
        }
    }
}

/// The greatest element put directly after its anchor comes before its siblings.
proof fn lemma_place_greater_first(s: DocView, q: Seq<OpIdView>, v: OpIdView, c: int)
    requires
        0 <= c <= q.len(),
        greater_first(s, q),
        after_anchors(s, q),
        no_repeats(q),
        after_anchor(q, anchor_of(s, v), c),
        forall|i: int| 0 <= i < q.len() ==> opid_lt(#[trigger] q[i], v),
    ensures
        greater_first(s, q.insert(c, v)),
{
    let t = q.insert(c, v);
    assert forall|i: int, j: int|
        0 <= i < t.len() && 0 <= j < t.len() && anchor_of(s, #[trigger] t[i]) == anchor_of(
            s,
            #[trigger] t[j],
        ) && opid_lt(t[j], t[i]) implies i < j by {
        let oi = if i < c { i } else { i - 1 };
        let oj = if j < c { j } else { j - 1 };
        if i != c && j != c {
            assert(t[i] == q[oi]);
            assert(t[j] == q[oj]);
            assert(oi < oj);
        } else if j == c {
            if i != c {
                assert(t[i] == q[oi]);
                assert(opid_lt(q[oi], v));
                lemma_opid_lt_asymmetric(q[oi], v);
            } else {
                lemma_opid_lt_asymmetric(v, v);
            }
        } else {
            assert(t[j] == q[oj]);
            match anchor_of(s, v) {
                ElementIdView::Head => {},
                ElementIdView::ID(a) => {
                    let m = choose|m: int| 0 <= m < oj && #[trigger] q[m] == a;
                    if m < c - 1 {
                        assert(q[m] != q[c - 1]);
                    } else if c - 1 < m {
                        assert(q[c - 1] != q[m]);
                    }
                },
            }
        }
    }
}

/// Where the element that the operation at place `n` inserts goes, and that
/// every element inserted before it is older.
proof fn lemma_place_found(s: DocView, object: ObjectIdView, q: Seq<OpIdView>, n: int) -> (c: int)
    requires
        doc_wf(s),
        0 <= n < s.len(),
        holds_elements(s, object, q, n),
        s[n].op.insert,
        s[n].op.object == object,
    ensures
        s[n].op.key is Elem,
        anchor_of(s, s[n].id) == s[n].op.key->Elem_0,
        0 <= c <= q.len(),
        after_anchor(q, s[n].op.key->Elem_0, c),
        place_after(q, s[n].op.key->Elem_0, s[n].id) == q.insert(c, s[n].id),
        forall|i: int| 0 <= i < q.len() ==> opid_lt(#[trigger] q[i], s[n].id),
        forall|i: int| 0 <= i < q.len() ==> #[trigger] q[i] != s[n].id,
{
    let x = s[n];
    assert(well_placed(s, x));
    let kind = object_type(s, object)->0;
    assert(check_key(s, x, kind) is None);
    let anchor = x.op.key->Elem_0;
    lemma_index_unique(s, x.id, n);
    assert forall|i: int| 0 <= i < q.len() implies opid_lt(#[trigger] q[i], x.id) by {
        assert(q.contains(q[i]));
        assert(inserted_before(s, object, q[i], n));
        let m = choose|m: int|
            0 <= m < n && (#[trigger] s[m]).id == q[i] && s[m].op.insert && s[m].op.object
                == object;
        assert(opid_lt(s[m].id, s[n].id));
    }
    assert forall|i: int| 0 <= i < q.len() implies #[trigger] q[i] != x.id by {
        assert(opid_lt(q[i], x.id));
        lemma_opid_lt_asymmetric(q[i], x.id);
    }
    match anchor {
        ElementIdView::Head => 0,
        ElementIdView::ID(a) => {
            assert(is_element(s, object, a));
            assert(opid_lt(a, x.id));
            let ia = op_index(s, a);
            if ia >= n {
                if ia > n {
                    assert(opid_lt(s[n].id, s[ia].id));
                }
                lemma_opid_lt_asymmetric(a, x.id);
            }
            assert(inserted_before(s, object, a, n));
            assert(q.contains(a));
            lemma_position_found(q, a);
            position_of(q, a) + 1
        },
    }
}

/// Putting a new element, greater than all that are there, after its anchor
/// keeps a list ordered.
pub proof fn lemma_place_keeps_order(s: DocView, object: ObjectIdView, q: Seq<OpIdView>, n: int)
    requires
        doc_wf(s),
        0 <= n < s.len(),
        list_ordered(s, object, q, n),
        s[n].op.insert,
        s[n].op.object == object,
    ensures
        s[n].op.key is Elem,
        list_ordered(s, object, place_after(q, s[n].op.key->Elem_0, s[n].id), n + 1),
{
    let c = lemma_place_found(s, object, q, n);
    lemma_place_elements(s, object, q, n, c);
    lemma_place_no_repeats(q, s[n].id, c);
    lemma_place_after_anchors(s, q, s[n].id, c);
    lemma_place_greater_first(s, q, s[n].id, c);
}

/// What holds of the order of every list, up to any number of operations.
pub proof fn lemma_sequence_ordered(s: DocView, object: ObjectIdView, n: int)
    requires
        doc_wf(s),
        0 <= n <= s.len(),
    ensures
        list_ordered(s, object, sequence_upto(s, object, n), n),
    decreases n,
{
    if n > 0 {
        lemma_sequence_ordered(s, object, n - 1);
        let q = sequence_upto(s, object, n - 1);
        let x = s[n - 1];
        if x.op.insert && x.op.object == object {
            lemma_place_keeps_order(s, object, q, n - 1);
        } else {
            assert forall|e: OpIdView| #[trigger] q.contains(e) <==> inserted_before(
                s,
                object,
                e,
                n,
            ) by {
                if inserted_before(s, object, e, n) {
                    let m = choose|m: int|
                        0 <= m < n && (#[trigger] s[m]).id == e && s[m].op.insert
                            && s[m].op.object == object;
                    assert(m < n - 1);
                    assert(inserted_before(s, object, e, n - 1));
                }
                if inserted_before(s, object, e, n - 1) {
                    let m = choose|m: int|
                        0 <= m < n - 1 && (#[trigger] s[m]).id == e && s[m].op.insert
                            && s[m].op.object == object;
                    assert(0 <= m < n && s[m].id == e);
                }
            }
        }
    } else {
        let q = sequence_upto(s, object, 0);
        assert(q.len() == 0);
        assert forall|e: OpIdView| #[trigger] q.contains(e) <==> inserted_before(
            s,
            object,
            e,
            0,
        ) by {}
    }
}

/// The rule of lists: the order of a list holds exactly its elements, each
/// once; every element comes after the element it was inserted after; and
/// of two elements inserted after the same one, the one with the greater
/// identifier comes first.
pub proof fn law_list_order(s: DocView, object: ObjectIdView)
    requires
        doc_wf(s),
    ensures
        forall|e: OpIdView| #[trigger]
            sequence(s, object).contains(e) <==> is_element(s, object, e),
        forall|i: int, j: int|
            0 <= i < j < sequence(s, object).len() ==> #[trigger] sequence(s, object)[i]
                != #[trigger] sequence(s, object)[j],
        forall|i: int|
            0 <= i < sequence(s, object).len() ==> match anchor_of(
                s,
                #[trigger] sequence(s, object)[i],
            ) {
                ElementIdView::ID(a) => exists|j: int|
                    0 <= j < i && #[trigger] sequence(s, object)[j] == a,
                ElementIdView::Head => true,
            },
        forall|i: int, j: int|
            0 <= i < sequence(s, object).len() && 0 <= j < sequence(s, object).len() && anchor_of(
                s,
                #[trigger] sequence(s, object)[i],
            ) == anchor_of(s, #[trigger] sequence(s, object)[j]) && opid_lt(
                sequence(s, object)[j],
                sequence(s, object)[i],
            ) ==> i < j,
{
    let q = sequence(s, object);
    lemma_sequence_ordered(s, object, s.len() as int);
    assert forall|e: OpIdView| #[trigger] q.contains(e) <==> is_element(s, object, e) by {
        if inserted_before(s, object, e, s.len() as int) {
            let m = choose|m: int|
                0 <= m < s.len() && (#[trigger] s[m]).id == e && s[m].op.insert && s[m].op.object
                    == object;
            lemma_index_unique(s, e, m);
        }
        if is_element(s, object, e) {
            let m = op_index(s, e);
            assert(0 <= m < s.len() && s[m].id == e && s[m].op.insert && s[m].op.object == object);
        }
    }
}

} // verus!
