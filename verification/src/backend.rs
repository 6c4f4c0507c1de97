//! The backend: a causal history and the document that its recorded changes
//! make, behind one interface.

use crate::change::{changes_view, Change, ChangeView};
use crate::document::{AppliedOpView, DocView, Document, Path, PathView};
use crate::error::AutomergeError;
use crate::history::{
    changes_of, clock_of, clock_seq, last_seq, lemma_clock_of_changes, missing_changes,
    missing_deps, standing, Clock, History, HistoryView, Standing,
};
use crate::ids::{ActorID, ElementID, Key, OpID};
use crate::model::{
    accept, all_fit, apply_ops, backend_wf, change_paths, drain, fits, ingest, ingest_all,
    ingest_local, lemma_accept, lemma_drain, lemma_ingest_all, merge, novel_pick, op_record,
    touched, BackendView,
};
use crate::patch::{full_patch, patch_of, paths_view, Patch};
use crate::seqs::lemma_filter_map_step;
use vstd::prelude::*;

verus! {

/// The backend that a history and a document make together.
pub open spec fn state(h: HistoryView, d: DocView) -> BackendView {
    BackendView { applied: h.applied, queue: h.queue, doc: d }
}

/// One replica of the document.
pub struct Backend {
    history: History,
    doc: Document,
}

impl View for Backend {
    type V = BackendView;

    closed spec fn view(&self) -> BackendView {
        state(self.history@, self.doc@)
    }
}

/// Records the ready change `c` and applies its operations.
fn accept_one(history: &mut History, doc: &mut Document, c: Change) -> (r: Result<
    (),
    AutomergeError,
>)
    requires
        standing(old(history)@.applied, c@) == Standing::Ready,
    ensures
        match accept(state(old(history)@, old(doc)@), c@) {
            Ok(st) => r is Ok && state(final(history)@, final(doc)@) == st,
            Err(e) => r == Err::<(), AutomergeError>(e),
        },
{
    let n = c.operations.len();
    if n > 0 && (n - 1) as u64 > u64::MAX - c.start_op {
        return Err(AutomergeError::InvalidChange);
    }
    let ghost d0 = doc@;
    let mut k: usize = 0;
    while k < n
        invariant
            k <= n,
            n == c.operations.len(),
            fits(c@),
            d0 == old(doc)@,
            history@ == old(history)@,
            apply_ops(d0, c@, 0) == apply_ops(doc@, c@, k as int),
        decreases n - k,
    {
        let id = OpID::new(c.start_op + k as u64, &c.actor);
        let op = c.operations[k].duplicate();
        let ghost rec = op_record(c@, k as int);
        let ghost cur = doc@;
        assert(c.operations[k as int]@ == rec.op);
        assert(rec == (AppliedOpView { id: id@, op: op@ }));
        match doc.apply_op(id, op) {
            Err(e) => {
                assert(apply_ops(cur, c@, k as int) == Err::<DocView, AutomergeError>(e));
                return Err(e);
            },
            Ok(_) => {
                assert(apply_ops(cur, c@, k as int) == apply_ops(doc@, c@, k as int + 1));
            },
        }
        k = k + 1;
    }
    history.accept(c);
    Ok(())
}

/// Lets every waiting change that can move be recorded and applied.
fn drain_all(history: &mut History, doc: &mut Document) -> (r: Result<(), AutomergeError>)
    ensures
        match drain(state(old(history)@, old(doc)@)) {
            Ok(st) => r is Ok && state(final(history)@, final(doc)@) == st,
            Err(e) => r == Err::<(), AutomergeError>(e),
        },
{
    loop
        invariant
            drain(state(old(history)@, old(doc)@)) == drain(state(history@, doc@)),
        decreases history@.queue.len(),
    {
        match history.take_movable() {
            None => {
                return Ok(());
            },
            Some(q) => {
                match history.standing(&q) {
                    Standing::Stale => {
                        return Err(AutomergeError::InvalidSequence);
                    },
                    Standing::Ready => {
                        match accept_one(history, doc, q) {
                            Err(e) => {
                                return Err(e);
                            },
                            Ok(_) => {},
                        }
                    },
                    _ => {},
                }
            },
        }
    }
}

/// Hands one change to a history and its document.
fn ingest_one(history: &mut History, doc: &mut Document, c: Change) -> (r: Result<
    (),
    AutomergeError,
>)
    ensures
        match ingest(state(old(history)@, old(doc)@), c@) {
            Ok(st) => r is Ok && state(final(history)@, final(doc)@) == st,
            Err(e) => r == Err::<(), AutomergeError>(e),
        },
{
    match history.standing(&c) {
        Standing::Duplicate => Ok(()),
        Standing::Stale => Err(AutomergeError::InvalidSequence),
        Standing::Waiting => {
            if !history.is_waiting(&c.hash) {
                history.enqueue(c);
            }
            Ok(())
        },
        Standing::Ready => {
            match accept_one(history, doc, c) {
                Err(e) => Err(e),
                Ok(_) => drain_all(history, doc),
            }
        },
    }
}

/// The slots that the changes recorded from place `from` on touch.
fn touched_paths(history: &History, from: usize) -> (r: Vec<Path>)
    requires
        all_fit(history@.applied),
    ensures
        paths_view(r@) == touched(history@.applied, from as int, history@.applied.len() as int),
{
    let mut out: Vec<Path> = Vec::new();
    let total = history.len();
    if from >= total {
        assert(paths_view(out@) =~= Seq::<PathView>::empty());
        return out;
    }
    let mut n: usize = from;
    assert(paths_view(out@) =~= touched(history@.applied, from as int, n as int));
    while n < total
        invariant
            from <= n <= total,
            total == history@.applied.len(),
            all_fit(history@.applied),
            paths_view(out@) =~= touched(history@.applied, from as int, n as int),
        decreases total - n,
    {
        let c = history.get(n);
        let ghost base = paths_view(out@);
        let mut k: usize = 0;
        assert(fits(history@.applied[n as int]));
        while k < c.operations.len()
            invariant
                k <= c.operations.len(),
                fits(c@),
                paths_view(out@) =~= base + change_paths(c@).take(k as int),
            decreases c.operations.len() - k,
        {
            let op = &c.operations[k];
            let key = if op.insert {
                Key::Elem(ElementID::ID(OpID::new(c.start_op + k as u64, &c.actor)))
            } else {
                op.key.duplicate()
            };
            let p = Path { object: op.object.duplicate(), key };
            assert(p@ == change_paths(c@)[k as int]);
            let ghost prev = paths_view(out@);
            out.push(p);
            assert(paths_view(out@) =~= prev.push(p@));
            assert(change_paths(c@).take(k as int + 1) =~= change_paths(c@).take(k as int).push(
                change_paths(c@)[k as int],
            ));
            k = k + 1;
        }
        assert(change_paths(c@).take(c@.ops.len() as int) =~= change_paths(c@));
        n = n + 1;
    }
    out
}

impl Backend {
    #[verifier::type_invariant]
    closed spec fn well_formed(self) -> bool {
        backend_wf(self@)
    }

    /// A backend that has seen nothing.
    pub fn init() -> (b: Backend)
        ensures
            b@.applied == Seq::<ChangeView>::empty(),
            b@.queue == Seq::<ChangeView>::empty(),
            b@.doc == Seq::<AppliedOpView>::empty(),
            backend_wf(b@),
    {
        let history = History::new();
        let doc = Document::new();
        assert(backend_wf(state(history@, doc@))) by {
            assert forall|r: AppliedOpView| !doc@.contains(r) by {}
        }
        Backend { history, doc }
    }

    /// A copy of the backend.
    pub fn duplicate(&self) -> (b: Backend)
        ensures
            b@ == self@,
            backend_wf(b@),
    {
        proof {
            use_type_invariant(self);
        }
        Backend { history: self.history.duplicate(), doc: self.doc.duplicate() }
    }

    /// Hands a batch of changes to the backend, one by one. Each change that
    /// is ready is recorded and applied, and after it every waiting change
    /// that has become ready; a change that is not ready waits. The patch
    /// shows the slots that the newly recorded changes touch. If any change
    /// cannot be applied, nothing is changed at all.
    pub fn apply_changes(&mut self, changes: Vec<Change>) -> (r: Result<Patch, AutomergeError>)
        ensures
            backend_wf(old(self)@),
            backend_wf(final(self)@),
            match ingest_all(old(self)@, changes_view(changes@), 0) {
                Ok(st) => r is Ok && final(self)@ == st && r->Ok_0@ == patch_of(
                    st.doc,
                    touched(st.applied, old(self)@.applied.len() as int, st.applied.len() as int),
                ),
                Err(e) => r == Err::<Patch, AutomergeError>(e) && final(self)@ == old(self)@,
            },
    {
        proof {
            use_type_invariant(&*self);
        }
        let mut history = self.history.duplicate();
        let mut doc = self.doc.duplicate();
        let start = history.len();
        let ghost batch = changes_view(changes@);
        let mut i: usize = 0;
        while i < changes.len()
            invariant
                i <= changes.len(),
                batch == changes_view(changes@),
                backend_wf(old(self)@),
                *self == *old(self),
                ingest_all(old(self)@, batch, 0) == ingest_all(
                    state(history@, doc@),
                    batch,
                    i as int,
                ),
            decreases changes.len() - i,
        {
            assert(batch[i as int] == changes[i as int]@);
            match ingest_one(&mut history, &mut doc, changes[i].duplicate()) {
                Err(e) => {
                    return Err(e);
                },
                Ok(_) => {},
            }
            i = i + 1;
        }
        proof {
            lemma_ingest_all(old(self)@, batch, 0);
        }
        let paths = touched_paths(&history, start);
        let patch = doc.diff(&paths);
        *self = Backend { history, doc };
        Ok(patch)
    }

    /// Applies a change that this replica's own frontend has made. It must be
    /// exactly the next change of its actor, and made on recorded changes.
    pub fn apply_local_change(&mut self, change: Change) -> (r: Result<Patch, AutomergeError>)
        ensures
            backend_wf(old(self)@),
            backend_wf(final(self)@),
            match ingest_local(old(self)@, change@) {
                Ok(st) => r is Ok && final(self)@ == st && r->Ok_0@ == patch_of(
                    st.doc,
                    touched(st.applied, old(self)@.applied.len() as int, st.applied.len() as int),
                ),
                Err(e) => r == Err::<Patch, AutomergeError>(e) && final(self)@ == old(self)@,
            },
    {
        proof {
            use_type_invariant(&*self);
        }
        let last = self.history.last_seq(&change.actor);
        if change.seq == 0 || change.seq - 1 != last {
            return Err(AutomergeError::InvalidSequence);
        }
        if self.history.has(&change.hash) || !self.history.deps_met(&change) {
            return Err(AutomergeError::InvalidChange);
        }
        let mut history = self.history.duplicate();
        let mut doc = self.doc.duplicate();
        let start = history.len();
        match accept_one(&mut history, &mut doc, change) {
            Err(e) => {
                return Err(e);
            },
            Ok(_) => {},
        }
        proof {
            lemma_accept(old(self)@, change@);
        }
        let ghost mid = state(history@, doc@);
        match drain_all(&mut history, &mut doc) {
            Err(e) => {
                return Err(e);
            },
            Ok(_) => {},
        }
        proof {
            lemma_drain(mid);
        }
        let paths = touched_paths(&history, start);
        let patch = doc.diff(&paths);
        *self = Backend { history, doc };
        Ok(patch)
    }

    /// The patch that shows the whole document.
    pub fn get_patch(&self) -> (r: Patch)
        ensures
            r@ == full_patch(self@.doc),
            backend_wf(self@),
    {
        proof {
            use_type_invariant(self);
        }
        self.doc.full_patch()
    }

    /// Every recorded change, in the order of recording.
    pub fn get_changes(&self) -> (r: Vec<Change>)
        ensures
            changes_view(r@) == self@.applied,
    {
        self.history.all_changes()
    }

    /// The recorded changes of one actor.
    pub fn get_changes_for_actor_id(&self, actor: &ActorID) -> (r: Vec<Change>)
        ensures
            changes_view(r@) == changes_of(self@.applied, actor@),
    {
        self.history.changes_for_actor(actor)
    }

    /// The recorded changes that a peer with this clock has not seen, each
    /// after the changes it depends on.
    pub fn get_missing_changes(&self, clock: &Clock) -> (r: Vec<Change>)
        ensures
            changes_view(r@) == missing_changes(self@.applied, clock@),
    {
        self.history.missing_changes(clock)
    }

    /// What the waiting changes still miss of their own actors.
    pub fn get_missing_deps(&self) -> (r: Clock)
        ensures
            r@ == missing_deps(self@.applied, self@.queue),
    {
        self.history.missing_deps()
    }

    /// The clock of this backend: for each actor, the highest sequence
    /// number that it has recorded.
    pub fn clock(&self) -> (r: Clock)
        ensures
            r@ == clock_of(self@.applied),
            forall|actor: Seq<char>| #[trigger]
                clock_seq(r@, actor) == last_seq(self@.applied, actor),
    {
        let r = self.history.clock();
        proof {
            assert forall|actor: Seq<char>| #[trigger]
                clock_seq(r@, actor) == last_seq(self@.applied, actor) by {
                lemma_clock_of_changes(self@.applied, actor, self@.applied.len() as int);
            }
        }
        r
    }

    /// Takes in every change that `other` has recorded and this backend has not.
    pub fn merge(&mut self, other: &Backend) -> (r: Result<Patch, AutomergeError>)
        ensures
            backend_wf(old(self)@),
            backend_wf(final(self)@),
            backend_wf(other@),
            match merge(old(self)@, other@) {
                Ok(st) => r is Ok && final(self)@ == st && r->Ok_0@ == patch_of(
                    st.doc,
                    touched(st.applied, old(self)@.applied.len() as int, st.applied.len() as int),
                ),
                Err(e) => r == Err::<Patch, AutomergeError>(e) && final(self)@ == old(self)@,
            },
    {
        proof {
            use_type_invariant(&*self);
            use_type_invariant(other);
        }
        let ghost f = novel_pick(self@.applied);
        let ghost s = other@.applied;
        let mut batch: Vec<Change> = Vec::new();
        let total = other.history.len();
        let mut i: usize = 0;
        assert(s.take(0).filter_map(f) =~= Seq::empty());
        while i < total
            invariant
                i <= total,
                total == s.len(),
                s == other@.applied,
                f == novel_pick(self@.applied),
                changes_view(batch@) =~= s.take(i as int).filter_map(f),
            decreases total - i,
        {
            proof {
                lemma_filter_map_step(s, f, i as int);
            }
            let c = other.history.get(i);
            if !self.history.has(&c.hash) {
                batch.push(c.duplicate());
            }
            i = i + 1;
        }
        assert(s.take(s.len() as int) =~= s);
        self.apply_changes(batch)
    }
}

} // verus!
