//! The backend as a function: what handing a change to a backend makes of it.
//!
//! A ready change is recorded and its operations join the document; then
//! every waiting change that has become ready follows, until none is left. A
//! change that cannot be applied fails the whole step.

use crate::change::ChangeView;
use crate::document::{
    add_op, check_op, doc_wf, lemma_add_op, lemma_add_op_valid, slot_key, AppliedOpView,
    DocView, PathView,
};
use crate::error::AutomergeError;
use crate::history::{
    deps_met, first_movable, has_hash, last_seq, lemma_record_ready, recorded_wf, standing,
    Standing,
};
use crate::ids::OpIdView;
use vstd::prelude::*;

verus! {

/// What a backend is in contracts: the recorded changes in the order of
/// recording, the waiting changes, and the document.
pub struct BackendView {
    pub applied: Seq<ChangeView>,
    pub queue: Seq<ChangeView>,
    pub doc: DocView,
}

/// The `k`-th operation of `c`, with its identifier.
pub open spec fn op_record(c: ChangeView, k: int) -> AppliedOpView {
    AppliedOpView {
        id: OpIdView { counter: (c.start_op + k) as u64, actor: c.actor },
        op: c.ops[k],
    }
}

/// The counters of all operations of `c` fit in 64 bits.
pub open spec fn fits(c: ChangeView) -> bool {
    c.start_op + c.ops.len() <= u64::MAX + 1
}

/// The document after the operations of `c` from the `k`-th on, or the
/// error of the first that cannot be applied.
pub open spec fn apply_ops(doc: DocView, c: ChangeView, k: int) -> Result<DocView, AutomergeError>
    decreases c.ops.len() - k,
{
    if k < 0 || k >= c.ops.len() {
        Ok(doc)
    } else {
        match check_op(doc, op_record(c, k)) {
            Some(e) => Err(e),
            None => apply_ops(add_op(doc, op_record(c, k)), c, k + 1),
        }
    }
}

/// The backend after the ready change `c` has been recorded and applied.
pub open spec fn accept(st: BackendView, c: ChangeView) -> Result<BackendView, AutomergeError> {
    if !fits(c) {
        Err(AutomergeError::InvalidChange)
    } else {
        match apply_ops(st.doc, c, 0) {
            Err(e) => Err(e),
            Ok(d) => Ok(BackendView { applied: st.applied.push(c), queue: st.queue, doc: d }),
        }
    }
}

/// The backend after every waiting change that can move has moved.
pub open spec fn drain(st: BackendView) -> Result<BackendView, AutomergeError>
    decreases st.queue.len(),
{
    let i = first_movable(st.applied, st.queue, 0);
    if 0 <= i < st.queue.len() {
        let q = st.queue[i];
        let rest = st.queue.remove(i);
        match standing(st.applied, q) {
            Standing::Stale => Err(AutomergeError::InvalidSequence),
            Standing::Ready => if !fits(q) {
                Err(AutomergeError::InvalidChange)
            } else {
                match apply_ops(st.doc, q, 0) {
                    Err(e) => Err(e),
                    Ok(d) => drain(
                        BackendView { applied: st.applied.push(q), queue: rest, doc: d },
                    ),
                }
            },
            _ => drain(BackendView { applied: st.applied, queue: rest, doc: st.doc }),
        }
    } else {
        Ok(st)
    }
}

/// The backend after one change has been handed to it.
pub open spec fn ingest(st: BackendView, c: ChangeView) -> Result<BackendView, AutomergeError> {
    match standing(st.applied, c) {
        Standing::Duplicate => Ok(st),
        Standing::Stale => Err(AutomergeError::InvalidSequence),
        Standing::Waiting => if has_hash(st.queue, c.hash) {
            Ok(st)
        } else {
            Ok(BackendView { applied: st.applied, queue: st.queue.push(c), doc: st.doc })
        },
        Standing::Ready => match accept(st, c) {
            Err(e) => Err(e),
            Ok(next) => drain(next),
        },
    }
}

/// The backend after the changes of `cs` from the `k`-th on have been handed
/// to it one by one.
pub open spec fn ingest_all(st: BackendView, cs: Seq<ChangeView>, k: int) -> Result<
    BackendView,
    AutomergeError,
>
    decreases cs.len() - k,
{
    if k < 0 || k >= cs.len() {
        Ok(st)
    } else {
        match ingest(st, cs[k]) {
            Err(e) => Err(e),
            Ok(next) => ingest_all(next, cs, k + 1),
        }
    }
}

/// The backend after a change of its own frontend: the change must be
/// exactly the next one of its actor, new, and made on recorded changes.
pub open spec fn ingest_local(st: BackendView, c: ChangeView) -> Result<
    BackendView,
    AutomergeError,
> {
    if c.seq != last_seq(st.applied, c.actor) + 1 {
        Err(AutomergeError::InvalidSequence)
    } else if has_hash(st.applied, c.hash) || !deps_met(st.applied, c) {
        Err(AutomergeError::InvalidChange)
    } else {
        match accept(st, c) {
            Err(e) => Err(e),
            Ok(next) => drain(next),
        }
    }
}

/// Picks the changes whose hash is not recorded in `applied`.
pub open spec fn novel_pick(applied: Seq<ChangeView>) -> spec_fn(ChangeView) -> Option<
    ChangeView,
> {
    |c: ChangeView|
        if has_hash(applied, c.hash) {
            None
        } else {
            Some(c)
        }
}

/// The changes of `theirs` whose hash is not recorded in `ours`.
pub open spec fn novel(ours: Seq<ChangeView>, theirs: Seq<ChangeView>) -> Seq<ChangeView> {
    theirs.filter_map(novel_pick(ours))
}

/// The backend after it has taken in what `other` has recorded.
pub open spec fn merge(st: BackendView, other: BackendView) -> Result<
    BackendView,
    AutomergeError,
> {
    ingest_all(st, novel(st.applied, other.applied), 0)
}

/// The slots that the operations of `c` touch, in their order.
pub open spec fn change_paths(c: ChangeView) -> Seq<PathView> {
    Seq::new(
        c.ops.len(),
        |k: int| PathView { object: c.ops[k].object, key: slot_key(op_record(c, k)) },
    )
}

/// The slots touched by the recorded changes from place `from` up to place `n`.
pub open spec fn touched(applied: Seq<ChangeView>, from: int, n: int) -> Seq<PathView>
    decreases n,
{
    if n <= from || n <= 0 {
        Seq::empty()
    } else {
        touched(applied, from, n - 1) + change_paths(applied[n - 1])
    }
}

/// `r` is an operation of a recorded change.
pub open spec fn recorded_op(applied: Seq<ChangeView>, r: AppliedOpView) -> bool {
    exists|i: int, k: int|
        0 <= i < applied.len() && 0 <= k < applied[i].ops.len() && r == #[trigger] op_record(
            applied[i],
            k,
        )
}

/// The document holds the operations of the recorded changes, and no others.
pub open spec fn doc_holds(applied: Seq<ChangeView>, doc: DocView) -> bool {
    forall|r: AppliedOpView| #[trigger] doc.contains(r) <==> recorded_op(applied, r)
}

/// The counters of every recorded change fit.
pub open spec fn all_fit(applied: Seq<ChangeView>) -> bool {
    forall|i: int| 0 <= i < applied.len() ==> fits(#[trigger] applied[i])
}

/// Every waiting change has to wait.
pub open spec fn settled(applied: Seq<ChangeView>, queue: Seq<ChangeView>) -> bool {
    forall|j: int| 0 <= j < queue.len() ==> standing(applied, #[trigger] queue[j])
        == Standing::Waiting
}

/// What holds of a backend while changes move: the history is causal and
/// sequenced, and the document is the set of the recorded operations.
pub open spec fn core_wf(st: BackendView) -> bool {
    &&& recorded_wf(st.applied)
    &&& doc_wf(st.doc)
    &&& doc_holds(st.applied, st.doc)
    &&& all_fit(st.applied)
}

/// What holds of every backend at rest.
pub open spec fn backend_wf(st: BackendView) -> bool {
    core_wf(st) && settled(st.applied, st.queue)
}

/// A change with this hash is recorded or waits.
pub open spec fn known(st: BackendView, h: crate::ids::ChangeHash) -> bool {
    has_hash(st.applied, h) || has_hash(st.queue, h)
}

/// `s` is the beginning of `t`.
pub open spec fn begins(s: Seq<ChangeView>, t: Seq<ChangeView>) -> bool {
    s.len() <= t.len() && forall|i: int| 0 <= i < s.len() ==> s[i] == t[i]
}

/// From `st` to `out` nothing recorded was taken back or moved, nothing
/// known was lost, and nothing new came but from `extra`.
pub open spec fn grows(st: BackendView, out: BackendView, extra: Seq<ChangeView>) -> bool {
    &&& begins(st.applied, out.applied)
    &&& forall|h: crate::ids::ChangeHash| known(st, h) ==> known(out, h)
    &&& forall|x: ChangeView| #[trigger]
        out.applied.contains(x) ==> st.applied.contains(x) || st.queue.contains(x)
            || extra.contains(x)
    &&& forall|x: ChangeView| #[trigger]
        out.queue.contains(x) ==> st.queue.contains(x) || extra.contains(x)
}

/// `x` is one of the operations of `c` from the `from`-th on.
pub open spec fn record_of(c: ChangeView, x: AppliedOpView, from: int) -> bool {
    exists|j: int| from <= j < c.ops.len() && x == #[trigger] op_record(c, j)
}

/// Applying the operations of a change keeps the order of the document, and
/// adds those operations and no others.
pub proof fn lemma_apply_ops(doc: DocView, c: ChangeView, k: int)
    requires
        doc_wf(doc),
        0 <= k <= c.ops.len(),
        apply_ops(doc, c, k) is Ok,
    ensures
        doc_wf(apply_ops(doc, c, k)->Ok_0),
        forall|x: AppliedOpView| #[trigger]
            (apply_ops(doc, c, k)->Ok_0).contains(x) <==> doc.contains(x) || record_of(c, x, k),
    decreases c.ops.len() - k,
{
    let out = apply_ops(doc, c, k)->Ok_0;
    if k < c.ops.len() {
        let r = op_record(c, k);
        let next = add_op(doc, r);
        lemma_add_op(doc, r);
        lemma_add_op_valid(doc, r);
        lemma_apply_ops(next, c, k + 1);
        assert forall|x: AppliedOpView| #[trigger]
            out.contains(x) <==> doc.contains(x) || record_of(c, x, k) by {
            if record_of(c, x, k) {
                let j = choose|j: int| k <= j < c.ops.len() && x == #[trigger] op_record(c, j);
                if j > k {
                    assert(record_of(c, x, k + 1));
                }
            }
            if record_of(c, x, k + 1) {
                let j = choose|j: int| k + 1 <= j < c.ops.len() && x == #[trigger] op_record(c, j);
                assert(k <= j < c.ops.len() && x == op_record(c, j));
            }
            assert(x == r ==> record_of(c, x, k)) by {
                if x == r {
                    assert(k <= k < c.ops.len() && x == op_record(c, k));
                }
            }
        }
    } else {
        assert forall|x: AppliedOpView| !record_of(c, x, k) by {}
    }
}

/// Recording and applying a ready change keeps a backend well formed.
pub proof fn lemma_accept(st: BackendView, c: ChangeView)
    requires
        core_wf(st),
        standing(st.applied, c) == Standing::Ready,
        accept(st, c) is Ok,
    ensures
        core_wf(accept(st, c)->Ok_0),
{
    let out = accept(st, c)->Ok_0;
    lemma_apply_ops(st.doc, c, 0);
    lemma_record_ready(st.applied, c);
    let t = st.applied.push(c);
    assert forall|r: AppliedOpView| #[trigger] out.doc.contains(r) <==> recorded_op(t, r) by {
        if recorded_op(st.applied, r) {
            let (i, k) = choose|i: int, k: int|
                0 <= i < st.applied.len() && 0 <= k < st.applied[i].ops.len() && r
                    == #[trigger] op_record(st.applied[i], k);
            assert(0 <= i < t.len() && 0 <= k < t[i].ops.len() && r == op_record(t[i], k));
        }
        if record_of(c, r, 0) {
            let j = choose|j: int| 0 <= j < c.ops.len() && r == #[trigger] op_record(c, j);
            let i = st.applied.len() as int;
            assert(0 <= i < t.len() && 0 <= j < t[i].ops.len() && r == op_record(t[i], j));
        }
        if recorded_op(t, r) {
            let (i, k) = choose|i: int, k: int|
                0 <= i < t.len() && 0 <= k < t[i].ops.len() && r == #[trigger] op_record(t[i], k);
            if i < st.applied.len() {
                assert(0 <= i < st.applied.len() && 0 <= k < st.applied[i].ops.len() && r
                    == op_record(st.applied[i], k));
            } else {
                assert(0 <= k < c.ops.len() && r == op_record(c, k));
            }
        }
        assert(st.doc.contains(r) <==> recorded_op(st.applied, r));
    }
}

/// Where no waiting change from place `i` on can move, each of them waits.
pub proof fn lemma_none_movable(applied: Seq<ChangeView>, queue: Seq<ChangeView>, i: int)
    requires
        0 <= i <= queue.len(),
        first_movable(applied, queue, i) == queue.len(),
    ensures
        forall|j: int| i <= j < queue.len() ==> standing(applied, #[trigger] queue[j])
            == Standing::Waiting,
    decreases queue.len() - i,
{
    if i < queue.len() {
        lemma_none_movable(applied, queue, i + 1);
    }
}

/// The first waiting change that can move is in the queue, and does not wait.
pub proof fn lemma_first_movable(applied: Seq<ChangeView>, queue: Seq<ChangeView>, i: int)
    requires
        0 <= i <= queue.len(),
    ensures
        i <= first_movable(applied, queue, i) <= queue.len(),
        first_movable(applied, queue, i) < queue.len() ==> standing(
            applied,
            queue[first_movable(applied, queue, i)],
        ) != Standing::Waiting,
    decreases queue.len() - i,
{
    if i < queue.len() && standing(applied, queue[i]) == Standing::Waiting {
        lemma_first_movable(applied, queue, i + 1);
    }
}

/// What taking a change out of a sequence does to membership.
pub proof fn lemma_remove_facts(q: Seq<ChangeView>, i: int)
    requires
        0 <= i < q.len(),
    ensures
        forall|x: ChangeView| #[trigger] q.remove(i).contains(x) ==> q.contains(x),
        forall|h: crate::ids::ChangeHash| #[trigger]
            has_hash(q, h) ==> has_hash(q.remove(i), h) || q[i].hash == h,
{
    let r = q.remove(i);
    assert forall|x: ChangeView| #[trigger] r.contains(x) implies q.contains(x) by {
        let j = choose|j: int| 0 <= j < r.len() && r[j] == x;
        if j < i {
            assert(q[j] == x);
        } else {
            assert(q[j + 1] == x);
        }
    }
    assert forall|h: crate::ids::ChangeHash| #[trigger] has_hash(q, h) implies has_hash(r, h)
        || q[i].hash == h by {
        let j = choose|j: int| 0 <= j < q.len() && #[trigger] q[j].hash == h;
        if j < i {
            assert(r[j].hash == h);
        } else if j > i {
            assert(r[j - 1].hash == h);
        }
    }
}

/// What appending a change to a sequence does to membership.
pub proof fn lemma_push_facts(s: Seq<ChangeView>, c: ChangeView)
    ensures
        forall|x: ChangeView| #[trigger] s.push(c).contains(x) <==> s.contains(x) || x == c,
        forall|h: crate::ids::ChangeHash| #[trigger]
            has_hash(s.push(c), h) <==> has_hash(s, h) || c.hash == h,
        begins(s, s.push(c)),
{
    let t = s.push(c);
    assert forall|x: ChangeView| #[trigger] t.contains(x) <==> s.contains(x) || x == c by {
        if t.contains(x) {
            let j = choose|j: int| 0 <= j < t.len() && t[j] == x;
            if j < s.len() {
                assert(s[j] == x);
            }
        }
        if s.contains(x) {
            let j = choose|j: int| 0 <= j < s.len() && s[j] == x;
            assert(t[j] == x);
        }
        assert(t[s.len() as int] == c);
    }
    assert forall|h: crate::ids::ChangeHash| #[trigger]
        has_hash(t, h) <==> has_hash(s, h) || c.hash == h by {
        if has_hash(t, h) {
            let j = choose|j: int| 0 <= j < t.len() && #[trigger] t[j].hash == h;
            if j < s.len() {
                assert(s[j].hash == h);
            }
        }
        if has_hash(s, h) {
            let j = choose|j: int| 0 <= j < s.len() && #[trigger] s[j].hash == h;
            assert(t[j].hash == h);
        }
        assert(t[s.len() as int].hash == c.hash);
    }
}

/// Growth goes on through a second step.
pub proof fn lemma_grows_on(a: BackendView, b: BackendView, c: BackendView, extra: Seq<ChangeView>)
    requires
        grows(a, b, extra),
        grows(b, c, extra),
    ensures
        grows(a, c, extra),
{
    assert forall|x: ChangeView| #[trigger] c.applied.contains(x) implies a.applied.contains(x)
        || a.queue.contains(x) || extra.contains(x) by {
        if b.applied.contains(x) {
        } else if b.queue.contains(x) {
        }
    }
    assert forall|x: ChangeView| #[trigger] c.queue.contains(x) implies a.queue.contains(x)
        || extra.contains(x) by {
        if b.queue.contains(x) {
        }
    }
}

/// Growth that needed nothing new is growth whatever may come.
pub proof fn lemma_grows_more(a: BackendView, b: BackendView, extra: Seq<ChangeView>)
    requires
        grows(a, b, Seq::empty()),
    ensures
        grows(a, b, extra),
{
    assert forall|x: ChangeView| #[trigger] b.applied.contains(x) implies a.applied.contains(x)
        || a.queue.contains(x) || extra.contains(x) by {
        assert(!Seq::<ChangeView>::empty().contains(x));
    }
    assert forall|x: ChangeView| #[trigger] b.queue.contains(x) implies a.queue.contains(x)
        || extra.contains(x) by {
        assert(!Seq::<ChangeView>::empty().contains(x));
    }
}

/// Letting the waiting changes move leaves a well-formed backend at rest,
/// and loses nothing.
pub proof fn lemma_drain(st: BackendView)
    requires
        core_wf(st),
        drain(st) is Ok,
    ensures
        backend_wf(drain(st)->Ok_0),
        grows(st, drain(st)->Ok_0, Seq::empty()),
    decreases st.queue.len(),
{
    let out = drain(st)->Ok_0;
    let i = first_movable(st.applied, st.queue, 0);
    lemma_first_movable(st.applied, st.queue, 0);
    if i < st.queue.len() {
        let q = st.queue[i];
        let rest = st.queue.remove(i);
        lemma_remove_facts(st.queue, i);
        assert(st.queue.contains(q));
        if standing(st.applied, q) == Standing::Ready {
            let d = apply_ops(st.doc, q, 0)->Ok_0;
            let held = BackendView { applied: st.applied, queue: rest, doc: st.doc };
            let next = BackendView { applied: st.applied.push(q), queue: rest, doc: d };
            assert(accept(held, q) == Ok::<BackendView, AutomergeError>(next));
            lemma_accept(held, q);
            lemma_drain(next);
            lemma_push_facts(st.applied, q);
            assert(grows(st, next, Seq::empty())) by {
                assert forall|h: crate::ids::ChangeHash| known(st, h) implies known(next, h) by {
                    if has_hash(st.queue, h) {
                        assert(has_hash(rest, h) || q.hash == h);
                    }
                }
            }
            lemma_grows_on(st, next, out, Seq::empty());
        } else {
            let next = BackendView { applied: st.applied, queue: rest, doc: st.doc };
            lemma_drain(next);
            assert(grows(st, next, Seq::empty())) by {
                assert forall|h: crate::ids::ChangeHash| known(st, h) implies known(next, h) by {
                    if has_hash(st.queue, h) {
                        assert(has_hash(rest, h) || q.hash == h);
                    }
                }
            }
            lemma_grows_on(st, next, out, Seq::empty());
        }
    } else {
        lemma_none_movable(st.applied, st.queue, 0);
    }
}

/// Handing a change to a well-formed backend leaves a well-formed backend
/// that knows the change, and loses nothing.
pub proof fn lemma_ingest(st: BackendView, c: ChangeView)
    requires
        backend_wf(st),
        ingest(st, c) is Ok,
    ensures
        backend_wf(ingest(st, c)->Ok_0),
        grows(st, ingest(st, c)->Ok_0, seq![c]),
        known(ingest(st, c)->Ok_0, c.hash),
{
    let out = ingest(st, c)->Ok_0;
    assert(seq![c].contains(c)) by {
        assert(seq![c][0] == c);
    }
    match standing(st.applied, c) {
        Standing::Ready => {
            let next = accept(st, c)->Ok_0;
            lemma_accept(st, c);
            lemma_drain(next);
            lemma_push_facts(st.applied, c);
            assert(grows(st, next, seq![c]));
            lemma_grows_more(next, out, seq![c]);
            lemma_grows_on(st, next, out, seq![c]);
        },
        Standing::Waiting => {
            if !has_hash(st.queue, c.hash) {
                lemma_push_facts(st.queue, c);
                assert forall|j: int| 0 <= j < out.queue.len() implies standing(
                    out.applied,
                    #[trigger] out.queue[j],
                ) == Standing::Waiting by {
                    if j < st.queue.len() {
                        assert(out.queue[j] == st.queue[j]);
                    }
                }
            }
        },
        _ => {},
    }
}

/// Handing a batch of changes to a well-formed backend leaves a well-formed
/// backend that knows each of them, and loses nothing.
pub proof fn lemma_ingest_all(st: BackendView, cs: Seq<ChangeView>, k: int)
    requires
        backend_wf(st),
        0 <= k <= cs.len(),
        ingest_all(st, cs, k) is Ok,
    ensures
        backend_wf(ingest_all(st, cs, k)->Ok_0),
        grows(st, ingest_all(st, cs, k)->Ok_0, cs),
        forall|j: int| k <= j < cs.len() ==> known(ingest_all(st, cs, k)->Ok_0, #[trigger] cs[j].hash),
    decreases cs.len() - k,
{
    let out = ingest_all(st, cs, k)->Ok_0;
    if k < cs.len() {
        let next = ingest(st, cs[k])->Ok_0;
        assert(ingest(st, cs[k]) is Ok);
        assert(ingest_all(st, cs, k) == ingest_all(next, cs, k + 1));
        lemma_ingest(st, cs[k]);
        lemma_ingest_all(next, cs, k + 1);
        lemma_grows_from(st, next, cs, k);
        lemma_grows_on(st, next, out, cs);
        assert forall|j: int| k <= j < cs.len() implies known(out, #[trigger] cs[j].hash) by {
            if j == k {
                assert(known(next, cs[k].hash));
            }
        }
    } else {
        assert(out == st);
        lemma_grows_same(st, cs);
    }
}

/// What grew by one change of a batch grew by the batch.
pub proof fn lemma_grows_from(a: BackendView, b: BackendView, cs: Seq<ChangeView>, k: int)
    requires
        0 <= k < cs.len(),
        grows(a, b, seq![cs[k]]),
    ensures
        grows(a, b, cs),
{
    assert forall|x: ChangeView| seq![cs[k]].contains(x) implies cs.contains(x) by {
        assert(x == cs[k]);
    }
}

/// A backend grows into itself.
pub proof fn lemma_grows_same(a: BackendView, extra: Seq<ChangeView>)
    ensures
        grows(a, a, extra),
{
}

} // verus!
