//! What holds of every backend: the laws of convergence, idempotence and
//! causal order, proved of the backend as `model` describes it.

use crate::change::ChangeView;
use crate::document::AppliedOpView;
use crate::error::AutomergeError;
use crate::history::{
    causal, clock_seq, deps_met, distinct_hashes, has_hash, last_seq, last_seq_upto,
    lemma_last_seq_bounds, lemma_last_seq_witness, missing_changes, recorded_wf, sequenced,
    standing, unseen_pick, ClockEntryView, Standing,
};
use crate::ids::{lemma_opid_lt_asymmetric, opid_lt};
use crate::model::{
    accept, backend_wf, begins, grows, ingest, ingest_all, ingest_local, known, lemma_accept,
    lemma_drain, lemma_ingest_all, lemma_push_facts, merge, novel, novel_pick, op_record,
    recorded_op, BackendView,
};
use crate::patch::full_patch;
use crate::seqs::{
    asymmetric, lemma_filter_map_order, lemma_filter_map_source, lemma_pick_members,
    lemma_sorted_same_elements, strictly_sorted,
};
use vstd::prelude::*;

verus! {

/// The order of the operations of a document.
pub open spec fn by_id() -> spec_fn(AppliedOpView, AppliedOpView) -> bool {
    |x: AppliedOpView, y: AppliedOpView| opid_lt(x.id, y.id)
}

/// Two changes recorded somewhere in `s` and `t` under one hash are one change.
pub open spec fn agree(s: Seq<ChangeView>, t: Seq<ChangeView>) -> bool {
    forall|i: int, j: int|
        0 <= i < s.len() && 0 <= j < t.len() && (#[trigger] s[i]).hash == (#[trigger] t[j]).hash
            ==> s[i] == t[j]
}

/// Convergence: two replicas that have recorded the same set of changes, in
/// whatever order, hold the same document and show the same patch.
pub proof fn law_convergence(a: BackendView, b: BackendView)
    requires
        backend_wf(a),
        backend_wf(b),
        forall|c: ChangeView| a.applied.contains(c) <==> b.applied.contains(c),
    ensures
        a.doc == b.doc,
        full_patch(a.doc) == full_patch(b.doc),
{
    lemma_same_operations(a, b);
    lemma_same_operations(b, a);
    let lt = by_id();
    assert(asymmetric(lt)) by {
        assert forall|x: AppliedOpView, y: AppliedOpView| #[trigger] lt(x, y) implies !lt(
            y,
            x,
        ) by {
            lemma_opid_lt_asymmetric(x.id, y.id);
        }
    }
    assert(strictly_sorted(a.doc, lt)) by {
        assert forall|i: int, j: int| 0 <= i < j < a.doc.len() implies lt(
            #[trigger] a.doc[i],
            #[trigger] a.doc[j],
        ) by {
            assert(opid_lt(a.doc[i].id, a.doc[j].id));
        }
    }
    assert(strictly_sorted(b.doc, lt)) by {
        assert forall|i: int, j: int| 0 <= i < j < b.doc.len() implies lt(
            #[trigger] b.doc[i],
            #[trigger] b.doc[j],
        ) by {
            assert(opid_lt(b.doc[i].id, b.doc[j].id));
        }
    }
    lemma_sorted_same_elements(a.doc, b.doc, lt);
}

/// Every operation of `a`'s document is in `b`'s, where `b` has recorded
/// every change of `a`.
pub proof fn lemma_same_operations(a: BackendView, b: BackendView)
    requires
        backend_wf(a),
        backend_wf(b),
        forall|c: ChangeView| a.applied.contains(c) ==> b.applied.contains(c),
    ensures
        forall|r: AppliedOpView| a.doc.contains(r) ==> b.doc.contains(r),
{
    assert forall|r: AppliedOpView| a.doc.contains(r) implies b.doc.contains(r) by {
        assert(recorded_op(a.applied, r));
        let (i, k) = choose|i: int, k: int|
            0 <= i < a.applied.len() && 0 <= k < a.applied[i].ops.len() && r
                == #[trigger] op_record(a.applied[i], k);
        assert(a.applied.contains(a.applied[i]));
        let c = a.applied[i];
        assert(b.applied.contains(c));
        let j = choose|j: int| 0 <= j < b.applied.len() && b.applied[j] == c;
        assert(0 <= j < b.applied.len() && 0 <= k < b.applied[j].ops.len() && r == op_record(
            b.applied[j],
            k,
        ));
        assert(recorded_op(b.applied, r));
    }
}

/// What is recorded at the beginning of a history is recorded in all of it.
pub proof fn lemma_begins_has(s: Seq<ChangeView>, t: Seq<ChangeView>)
    requires
        begins(s, t),
    ensures
        forall|h: crate::ids::ChangeHash| has_hash(s, h) ==> has_hash(t, h),
        forall|c: ChangeView| s.contains(c) ==> t.contains(c),
{
    assert forall|h: crate::ids::ChangeHash| has_hash(s, h) implies has_hash(t, h) by {
        let i = choose|i: int| 0 <= i < s.len() && #[trigger] s[i].hash == h;
        assert(t[i].hash == h);
    }
    assert forall|c: ChangeView| s.contains(c) implies t.contains(c) by {
        let i = choose|i: int| 0 <= i < s.len() && s[i] == c;
        assert(t[i] == c);
    }
}

/// Idempotence: a change handed to a backend a second time changes nothing.
pub proof fn law_idempotent(st: BackendView, c: ChangeView)
    requires
        backend_wf(st),
        ingest(st, c) is Ok,
    ensures
        ingest(ingest(st, c)->Ok_0, c) == ingest(st, c),
{
    let out = ingest(st, c)->Ok_0;
    match standing(st.applied, c) {
        Standing::Ready => {
            let next = accept(st, c)->Ok_0;
            lemma_accept(st, c);
            lemma_drain(next);
            lemma_push_facts(st.applied, c);
            lemma_begins_has(next.applied, out.applied);
            assert(has_hash(next.applied, c.hash));
            assert(standing(out.applied, c) == Standing::Duplicate);
        },
        Standing::Waiting => {
            if !has_hash(st.queue, c.hash) {
                lemma_push_facts(st.queue, c);
            }
        },
        _ => {},
    }
}

/// Where `ours` has every hash of `theirs`, nothing of `theirs` is new.
pub proof fn lemma_nothing_novel(ours: Seq<ChangeView>, theirs: Seq<ChangeView>)
    requires
        forall|i: int| 0 <= i < theirs.len() ==> has_hash(ours, #[trigger] theirs[i].hash),
    ensures
        novel(ours, theirs) == Seq::<ChangeView>::empty(),
    decreases theirs.len(),
{
    if theirs.len() > 0 {
        let rest = theirs.drop_last();
        assert forall|i: int| 0 <= i < rest.len() implies has_hash(
            ours,
            #[trigger] rest[i].hash,
        ) by {
            assert(rest[i] == theirs[i]);
        }
        lemma_nothing_novel(ours, rest);
        assert(has_hash(ours, theirs[theirs.len() - 1].hash));
    }
}

/// Merging a backend with one that has recorded the same changes is a no-op.
pub proof fn law_merge_self(st: BackendView, other: BackendView)
    requires
        other.applied == st.applied,
    ensures
        merge(st, other) == Ok::<BackendView, AutomergeError>(st),
{
    lemma_nothing_novel(st.applied, st.applied);
}

/// Causal gating: a change with a dependency that is not recorded is not
/// recorded and not applied, and changes nothing that a patch shows.
pub proof fn law_causal_gating(st: BackendView, c: ChangeView)
    requires
        !deps_met(st.applied, c),
        ingest(st, c) is Ok,
    ensures
        (ingest(st, c)->Ok_0).applied == st.applied,
        (ingest(st, c)->Ok_0).doc == st.doc,
        full_patch((ingest(st, c)->Ok_0).doc) == full_patch(st.doc),
{
}

/// Causal order: in every backend each recorded change comes after all the
/// changes it depends on.
pub proof fn law_causal_order(st: BackendView, i: int, k: int)
    requires
        backend_wf(st),
        0 <= i < st.applied.len(),
        0 <= k < st.applied[i].deps.len(),
    ensures
        exists|j: int| 0 <= j < i && #[trigger] st.applied[j].hash == st.applied[i].deps[k],
{
    assert(causal(st.applied));
    assert(has_hash(st.applied.take(i), st.applied[i].deps[k]));
    let j = choose|j: int|
        0 <= j < st.applied.take(i).len() && #[trigger] st.applied.take(i)[j].hash
            == st.applied[i].deps[k];
    assert(st.applied[j].hash == st.applied[i].deps[k]);
}

/// Sequence numbers: a new change whose sequence number is not above its
/// actor's last one is refused as out of sequence.
pub proof fn law_stale_sequence(st: BackendView, c: ChangeView)
    requires
        !has_hash(st.applied, c.hash),
        c.seq <= last_seq(st.applied, c.actor),
    ensures
        ingest(st, c) == Err::<BackendView, AutomergeError>(AutomergeError::InvalidSequence),
{
}

/// Sequence numbers: a change of the replica's own frontend is refused as
/// out of sequence unless it carries the number after its actor's last one.
pub proof fn law_local_sequence(st: BackendView, c: ChangeView)
    requires
        c.seq != last_seq(st.applied, c.actor) + 1,
    ensures
        ingest_local(st, c) == Err::<BackendView, AutomergeError>(
            AutomergeError::InvalidSequence,
        ),
{
}

/// In a well-formed history an actor's later change has the higher sequence number.
pub proof fn lemma_seq_ascends(s: Seq<ChangeView>, i: int, j: int)
    requires
        sequenced(s),
        0 <= i < j < s.len(),
        s[i].actor == s[j].actor,
    ensures
        s[i].seq < s[j].seq,
{
    lemma_last_seq_bounds(s, s[j].actor, j, i);
    assert(s[j].seq == last_seq_upto(s, s[j].actor, j) + 1);
}

/// In a well-formed history every sequence number from 1 up to an actor's
/// highest has a change.
pub proof fn lemma_seq_present(s: Seq<ChangeView>, actor: Seq<char>, m: int, n: u64) -> (j: int)
    requires
        sequenced(s),
        0 <= m <= s.len(),
        1 <= n <= last_seq_upto(s, actor, m),
    ensures
        0 <= j < m,
        s[j].actor == actor,
        s[j].seq == n,
    decreases m,
{
    let w = lemma_last_seq_witness(s, actor, m);
    if s[w].seq == n {
        w
    } else {
        assert(s[w].seq == last_seq_upto(s, s[w].actor, w) + 1);
        lemma_seq_present(s, actor, w, n)
    }
}

/// Every change of `other` ends up recorded, where each of them was recorded
/// before or was in the batch, and the batch went through.
pub proof fn lemma_taken(
    st: BackendView,
    out: BackendView,
    batch: Seq<ChangeView>,
    other: Seq<ChangeView>,
    i: int,
)
    requires
        backend_wf(out),
        recorded_wf(other),
        grows(st, out, batch),
        forall|j: int| 0 <= j < batch.len() ==> known(out, #[trigger] batch[j].hash),
        forall|x: ChangeView| #[trigger] batch.contains(x) ==> other.contains(x),
        forall|j: int|
            0 <= j < other.len() ==> st.applied.contains(#[trigger] other[j]) || batch.contains(
                other[j],
            ),
        agree(st.applied, other),
        agree(st.queue, other),
        0 <= i < other.len(),
    ensures
        out.applied.contains(other[i]),
    decreases i,
{
    let c = other[i];
    assert forall|k: int| 0 <= k < c.deps.len() implies has_hash(
        out.applied,
        #[trigger] c.deps[k],
    ) by {
        assert(has_hash(other.take(i), other[i].deps[k]));
        let j = choose|j: int|
            0 <= j < other.take(i).len() && #[trigger] other.take(i)[j].hash == c.deps[k];
        assert(other[j].hash == c.deps[k]);
        lemma_taken(st, out, batch, other, j);
        let m = choose|m: int| 0 <= m < out.applied.len() && out.applied[m] == other[j];
        assert(out.applied[m].hash == c.deps[k]);
    }
    assert(deps_met(out.applied, c));
    let p = last_seq_upto(other, c.actor, i);
    assert(c.seq == p + 1);
    if p > 0 {
        let j = lemma_last_seq_witness(other, c.actor, i);
        lemma_taken(st, out, batch, other, j);
        let m = choose|m: int| 0 <= m < out.applied.len() && out.applied[m] == other[j];
        lemma_last_seq_bounds(out.applied, c.actor, out.applied.len() as int, m);
    }
    assert(c.seq <= last_seq(out.applied, c.actor) + 1);
    if st.applied.contains(c) {
        lemma_begins_has(st.applied, out.applied);
    } else {
        assert(batch.contains(c));
        let j = choose|j: int| 0 <= j < batch.len() && batch[j] == c;
        assert(known(out, batch[j].hash));
        if has_hash(out.applied, c.hash) {
            let m = choose|m: int| 0 <= m < out.applied.len() && #[trigger] out.applied[m].hash
                == c.hash;
            let x = out.applied[m];
            assert(out.applied.contains(x));
            lemma_one_change(st, batch, other, i, x);
        } else {
            let m = choose|m: int| 0 <= m < out.queue.len() && #[trigger] out.queue[m].hash
                == c.hash;
            let x = out.queue[m];
            assert(out.queue.contains(x));
            lemma_one_change(st, batch, other, i, x);
            assert(standing(out.applied, out.queue[m]) == Standing::Waiting);
            assert(false);
        }
    }
}

/// A change that came from the backend or the batch and has the hash of a
/// change of `other` is that change.
pub proof fn lemma_one_change(
    st: BackendView,
    batch: Seq<ChangeView>,
    other: Seq<ChangeView>,
    i: int,
    x: ChangeView,
)
    requires
        distinct_hashes(other),
        forall|y: ChangeView| #[trigger] batch.contains(y) ==> other.contains(y),
        agree(st.applied, other),
        agree(st.queue, other),
        0 <= i < other.len(),
        x.hash == other[i].hash,
        st.applied.contains(x) || st.queue.contains(x) || batch.contains(x),
    ensures
        x == other[i],
{
    if st.applied.contains(x) {
        let u = choose|u: int| 0 <= u < st.applied.len() && st.applied[u] == x;
        assert(st.applied[u].hash == other[i].hash);
    } else if st.queue.contains(x) {
        let u = choose|u: int| 0 <= u < st.queue.len() && st.queue[u] == x;
        assert(st.queue[u].hash == other[i].hash);
    } else {
        assert(other.contains(x));
        let v = choose|v: int| 0 <= v < other.len() && other[v] == x;
        if v < i {
            assert(other[v].hash != other[i].hash);
        } else if i < v {
            assert(other[i].hash != other[v].hash);
        }
    }
}

/// A merge that goes through records every change that the other backend
/// has recorded, keeps what was recorded, and records nothing that neither
/// of the two had.
pub proof fn law_merge_takes_all(a: BackendView, b: BackendView)
    requires
        backend_wf(a),
        backend_wf(b),
        agree(a.applied, b.applied),
        agree(a.queue, b.applied),
        merge(a, b) is Ok,
    ensures
        backend_wf(merge(a, b)->Ok_0),
        begins(a.applied, (merge(a, b)->Ok_0).applied),
        forall|c: ChangeView| #[trigger]
            b.applied.contains(c) ==> (merge(a, b)->Ok_0).applied.contains(c),
        forall|c: ChangeView| #[trigger]
            (merge(a, b)->Ok_0).applied.contains(c) ==> a.applied.contains(c) || a.queue.contains(
                c,
            ) || b.applied.contains(c),
{
    let out = merge(a, b)->Ok_0;
    let batch = novel(a.applied, b.applied);
    lemma_ingest_all(a, batch, 0);
    lemma_pick_members(b.applied, novel_pick(a.applied));
    assert forall|j: int| 0 <= j < b.applied.len() implies a.applied.contains(
        #[trigger] b.applied[j],
    ) || batch.contains(b.applied[j]) by {
        let c = b.applied[j];
        assert(b.applied.contains(c));
        if has_hash(a.applied, c.hash) {
            let u = choose|u: int| 0 <= u < a.applied.len() && #[trigger] a.applied[u].hash
                == c.hash;
            assert(a.applied[u].hash == b.applied[j].hash);
            assert(a.applied[u] == c);
        }
    }
    assert forall|c: ChangeView| #[trigger] b.applied.contains(c) implies out.applied.contains(
        c,
    ) by {
        let i = choose|i: int| 0 <= i < b.applied.len() && b.applied[i] == c;
        lemma_taken(a, out, batch, b.applied, i);
    }
}

/// Every change that two backends know, recorded or waiting.
pub open spec fn all_known(a: BackendView, b: BackendView) -> Seq<ChangeView> {
    a.applied + a.queue + b.applied + b.queue
}

/// A hash names one change: whatever two backends know under one hash is
/// one and the same change.
pub open spec fn one_change_per_hash(a: BackendView, b: BackendView) -> bool {
    agree(all_known(a, b), all_known(a, b))
}

/// What two backends know is what each of them has recorded or has waiting.
pub proof fn lemma_all_known(a: BackendView, b: BackendView)
    ensures
        forall|x: ChangeView| #[trigger]
            all_known(a, b).contains(x) <==> a.applied.contains(x) || a.queue.contains(x)
                || b.applied.contains(x) || b.queue.contains(x),
{
    let u = all_known(a, b);
    let n1 = a.applied.len() as int;
    let n2 = n1 + a.queue.len();
    let n3 = n2 + b.applied.len();
    assert forall|x: ChangeView| #[trigger] u.contains(x) <==> a.applied.contains(x)
        || a.queue.contains(x) || b.applied.contains(x) || b.queue.contains(x) by {
        if u.contains(x) {
            let i = choose|i: int| 0 <= i < u.len() && u[i] == x;
            if i < n1 {
                assert(a.applied[i] == x);
            } else if i < n2 {
                assert(a.queue[i - n1] == x);
            } else if i < n3 {
                assert(b.applied[i - n2] == x);
            } else {
                assert(b.queue[i - n3] == x);
            }
        }
        if a.applied.contains(x) {
            let i = choose|i: int| 0 <= i < a.applied.len() && a.applied[i] == x;
            assert(u[i] == x);
        }
        if a.queue.contains(x) {
            let i = choose|i: int| 0 <= i < a.queue.len() && a.queue[i] == x;
            assert(u[n1 + i] == x);
        }
        if b.applied.contains(x) {
            let i = choose|i: int| 0 <= i < b.applied.len() && b.applied[i] == x;
            assert(u[n2 + i] == x);
        }
        if b.queue.contains(x) {
            let i = choose|i: int| 0 <= i < b.queue.len() && b.queue[i] == x;
            assert(u[n3 + i] == x);
        }
    }
}

/// Changes taken from a pool in which a hash names one change agree.
pub proof fn lemma_agree_within(u: Seq<ChangeView>, s: Seq<ChangeView>, t: Seq<ChangeView>)
    requires
        agree(u, u),
        forall|x: ChangeView| #[trigger] s.contains(x) ==> u.contains(x),
        forall|x: ChangeView| #[trigger] t.contains(x) ==> u.contains(x),
    ensures
        agree(s, t),
{
    assert forall|i: int, j: int|
        0 <= i < s.len() && 0 <= j < t.len() && (#[trigger] s[i]).hash == (#[trigger] t[j]).hash
        implies s[i] == t[j] by {
        assert(s.contains(s[i]));
        assert(t.contains(t[j]));
        let p = choose|p: int| 0 <= p < u.len() && u[p] == s[i];
        let q = choose|q: int| 0 <= q < u.len() && u[q] == t[j];
        assert(u[p].hash == u[q].hash);
    }
}

/// Commutativity of merge: when one backend has merged a second, and the
/// second then merges the first, the two hold the same document, provided
/// that the second merge records no change that waited in the second
/// backend and that the first has not recorded. A hash names one change.
pub proof fn law_merge_commutes(a: BackendView, b: BackendView)
    requires
        backend_wf(a),
        backend_wf(b),
        one_change_per_hash(a, b),
        merge(a, b) is Ok,
        merge(b, merge(a, b)->Ok_0) is Ok,
        forall|c: ChangeView|
            b.queue.contains(c) && #[trigger] (merge(b, merge(a, b)->Ok_0)->Ok_0).applied.contains(
                c,
            ) ==> (merge(a, b)->Ok_0).applied.contains(c),
    ensures
        (merge(a, b)->Ok_0).doc == (merge(b, merge(a, b)->Ok_0)->Ok_0).doc,
        full_patch((merge(a, b)->Ok_0).doc) == full_patch(
            (merge(b, merge(a, b)->Ok_0)->Ok_0).doc,
        ),
{
    let a1 = merge(a, b)->Ok_0;
    let b1 = merge(b, a1)->Ok_0;
    let u = all_known(a, b);
    lemma_all_known(a, b);
    lemma_agree_within(u, a.applied, b.applied);
    lemma_agree_within(u, a.queue, b.applied);
    law_merge_takes_all(a, b);
    lemma_agree_within(u, b.applied, a1.applied);
    lemma_agree_within(u, b.queue, a1.applied);
    law_merge_takes_all(b, a1);
    lemma_begins_has(b.applied, b1.applied);
    assert forall|c: ChangeView| a1.applied.contains(c) <==> b1.applied.contains(c) by {}
    law_convergence(a1, b1);
}

/// The changes that a peer has not seen come each after the changes it
/// depends on: a dependency that is among them stands before the change.
pub proof fn law_missing_changes_causal(
    s: Seq<ChangeView>,
    cl: Seq<ClockEntryView>,
    i: int,
    j: int,
    k: int,
)
    requires
        recorded_wf(s),
        0 <= i < missing_changes(s, cl).len(),
        0 <= j < missing_changes(s, cl).len(),
        0 <= k < missing_changes(s, cl)[i].deps.len(),
        missing_changes(s, cl)[j].hash == missing_changes(s, cl)[i].deps[k],
    ensures
        j < i,
{
    let f = unseen_pick(cl);
    let m = missing_changes(s, cl);
    let a = lemma_filter_map_source(s, f, i);
    assert(s[a] == m[i]);
    assert(has_hash(s.take(a), s[a].deps[k]));
    let d = choose|d: int| 0 <= d < s.take(a).len() && #[trigger] s.take(a)[d].hash == m[i].deps[k];
    assert(s[d].hash == m[j].hash);
    if i < j {
        let ab = lemma_filter_map_order(s, f, i, j);
        assert(s[ab.0] == m[i]);
        assert(s[ab.1] == m[j]);
        lemma_same_place(s, ab.0, a);
        lemma_same_place(s, ab.1, d);
    } else if i == j {
        lemma_same_place(s, a, d);
    }
}

/// Two places of a history that hold the same hash are one place.
pub proof fn lemma_same_place(s: Seq<ChangeView>, x: int, y: int)
    requires
        distinct_hashes(s),
        0 <= x < s.len(),
        0 <= y < s.len(),
        s[x].hash == s[y].hash,
    ensures
        x == y,
{
    if x < y {
        assert(s[x].hash != s[y].hash);
    } else if y < x {
        assert(s[y].hash != s[x].hash);
    }
}

/// Round trip of missing changes: when a backend hands a peer the changes
/// that the peer's clock has not seen, the peer comes to hold the same
/// document as the backend does once it has merged the peer, provided that
/// neither records a change that waited in it and that the other has not
/// recorded. A hash names one change.
pub proof fn law_missing_changes_round_trip(
    a: BackendView,
    b: BackendView,
    cl: Seq<ClockEntryView>,
)
    requires
        backend_wf(a),
        backend_wf(b),
        one_change_per_hash(a, b),
        forall|actor: Seq<char>| #[trigger] clock_seq(cl, actor) == last_seq(b.applied, actor),
        merge(a, b) is Ok,
        ingest_all(b, missing_changes(a.applied, cl), 0) is Ok,
        forall|c: ChangeView|
            a.queue.contains(c) && #[trigger] (merge(a, b)->Ok_0).applied.contains(c) ==> (
            ingest_all(b, missing_changes(a.applied, cl), 0)->Ok_0).applied.contains(c),
        forall|c: ChangeView|
            b.queue.contains(c) && #[trigger] (ingest_all(
                b,
                missing_changes(a.applied, cl),
                0,
            )->Ok_0).applied.contains(c) ==> (merge(a, b)->Ok_0).applied.contains(c),
    ensures
        (merge(a, b)->Ok_0).doc == (ingest_all(b, missing_changes(a.applied, cl), 0)->Ok_0).doc,
        full_patch((merge(a, b)->Ok_0).doc) == full_patch(
            (ingest_all(b, missing_changes(a.applied, cl), 0)->Ok_0).doc,
        ),
{
    let a1 = merge(a, b)->Ok_0;
    let batch = missing_changes(a.applied, cl);
    let b1 = ingest_all(b, batch, 0)->Ok_0;
    let u = all_known(a, b);
    lemma_all_known(a, b);
    lemma_agree_within(u, a.applied, b.applied);
    lemma_agree_within(u, a.queue, b.applied);
    lemma_agree_within(u, b.applied, a.applied);
    lemma_agree_within(u, b.queue, a.applied);
    law_merge_takes_all(a, b);
    lemma_begins_has(a.applied, a1.applied);
    lemma_ingest_all(b, batch, 0);
    lemma_begins_has(b.applied, b1.applied);
    lemma_pick_members(a.applied, unseen_pick(cl));
    assert forall|j: int| 0 <= j < a.applied.len() implies b.applied.contains(
        #[trigger] a.applied[j],
    ) || batch.contains(a.applied[j]) by {
        let c = a.applied[j];
        assert(a.applied.contains(c));
        assert(clock_seq(cl, c.actor) == last_seq(b.applied, c.actor));
        if c.seq <= last_seq(b.applied, c.actor) {
            assert(c.seq == last_seq_upto(a.applied, c.actor, j) + 1);
            let v = lemma_seq_present(b.applied, c.actor, b.applied.len() as int, c.seq);
            let d = b.applied[v];
            assert(b.applied.contains(d));
            assert(a1.applied.contains(d));
            assert(a1.applied.contains(c));
            let x = choose|x: int| 0 <= x < a1.applied.len() && a1.applied[x] == c;
            let y = choose|y: int| 0 <= y < a1.applied.len() && a1.applied[y] == d;
            if x < y {
                lemma_seq_ascends(a1.applied, x, y);
            } else if y < x {
                lemma_seq_ascends(a1.applied, y, x);
            }
            assert(c == d);
        }
    }
    assert forall|c: ChangeView| a.applied.contains(c) implies b1.applied.contains(c) by {
        let i = choose|i: int| 0 <= i < a.applied.len() && a.applied[i] == c;
        lemma_taken(b, b1, batch, a.applied, i);
    }
    assert forall|c: ChangeView| a1.applied.contains(c) <==> b1.applied.contains(c) by {}
    law_convergence(a1, b1);
}

} // verus!
