//! The causal history: the changes that have been recorded, in the order in
//! which they were recorded, and the changes that wait for what they depend on.
//!
//! A change is recorded only after every change it depends on, and only with
//! the sequence number that follows its actor's last one.

use crate::change::{changes_view, Change, ChangeView};
use crate::error::AutomergeError;
use crate::ids::{ActorID, ChangeHash};
use crate::seqs::lemma_filter_map_step;
use vstd::prelude::*;

verus! {

/// A change with this hash is in `s`.
pub open spec fn has_hash(s: Seq<ChangeView>, h: ChangeHash) -> bool {
    exists|i: int| 0 <= i < s.len() && #[trigger] s[i].hash == h
}

/// The highest sequence number of `actor` among the first `n` changes of
/// `s`; zero where it has none.
pub open spec fn last_seq_upto(s: Seq<ChangeView>, actor: Seq<char>, n: int) -> u64
    decreases n,
{
    if n <= 0 {
        0
    } else {
        let prev = last_seq_upto(s, actor, n - 1);
        if s[n - 1].actor == actor && s[n - 1].seq > prev {
            s[n - 1].seq
        } else {
            prev
        }
    }
}

/// The highest sequence number of `actor` in `s`.
pub open spec fn last_seq(s: Seq<ChangeView>, actor: Seq<char>) -> u64 {
    last_seq_upto(s, actor, s.len() as int)
}

/// Every change that `c` depends on is in `s`.
pub open spec fn deps_met(s: Seq<ChangeView>, c: ChangeView) -> bool {
    forall|k: int| 0 <= k < c.deps.len() ==> has_hash(s, #[trigger] c.deps[k])
}

/// How a change stands to the recorded ones.
#[derive(Clone, Copy, Debug, PartialEq, Eq, Structural)]
pub enum Standing {
    /// A change with this hash is recorded already.
    Duplicate,
    /// The sequence number is not above the actor's last one.
    Stale,
    /// Every dependency is recorded, and the sequence number is the next one.
    Ready,
    /// A dependency, or an earlier change of the actor, has not come yet.
    Waiting,
}

/// How `c` stands to the recorded changes `s`.
pub open spec fn standing(s: Seq<ChangeView>, c: ChangeView) -> Standing {
    if has_hash(s, c.hash) {
        Standing::Duplicate
    } else if c.seq <= last_seq(s, c.actor) {
        Standing::Stale
    } else if c.seq == last_seq(s, c.actor) + 1 && deps_met(s, c) {
        Standing::Ready
    } else {
        Standing::Waiting
    }
}

/// No two changes of `s` have the same hash.
pub open spec fn distinct_hashes(s: Seq<ChangeView>) -> bool {
    forall|i: int, j: int| 0 <= i < j < s.len() ==> #[trigger] s[i].hash != #[trigger] s[j].hash
}

/// Every change of `s` comes after the changes it depends on.
pub open spec fn causal(s: Seq<ChangeView>) -> bool {
    forall|i: int, k: int|
        0 <= i < s.len() && 0 <= k < s[i].deps.len() ==> has_hash(
            s.take(i),
            #[trigger] s[i].deps[k],
        )
}

/// Every change of `s` has the sequence number that follows the highest of
/// its actor before it.
pub open spec fn sequenced(s: Seq<ChangeView>) -> bool {
    forall|i: int|
        0 <= i < s.len() ==> (#[trigger] s[i]).seq == last_seq_upto(s, s[i].actor, i) + 1
}

/// What holds of the recorded changes of every history.
pub open spec fn recorded_wf(s: Seq<ChangeView>) -> bool {
    distinct_hashes(s) && causal(s) && sequenced(s)
}

/// The highest sequence number among the first `n` changes looks at those
/// changes only.
pub proof fn lemma_last_seq_prefix(s: Seq<ChangeView>, t: Seq<ChangeView>, actor: Seq<char>, n: int)
    requires
        0 <= n <= s.len(),
        n <= t.len(),
        forall|i: int| 0 <= i < n ==> s[i] == t[i],
    ensures
        last_seq_upto(s, actor, n) == last_seq_upto(t, actor, n),
    decreases n,
{
    if n > 0 {
        lemma_last_seq_prefix(s, t, actor, n - 1);
    }
}

/// No change of `actor` among the first `n` has a sequence number above the highest.
pub proof fn lemma_last_seq_bounds(s: Seq<ChangeView>, actor: Seq<char>, n: int, j: int)
    requires
        0 <= j < n <= s.len(),
        s[j].actor == actor,
    ensures
        s[j].seq <= last_seq_upto(s, actor, n),
    decreases n,
{
    if j < n - 1 {
        lemma_last_seq_bounds(s, actor, n - 1, j);
    }
}

/// A highest sequence number above zero is that of one of the actor's changes.
pub proof fn lemma_last_seq_witness(s: Seq<ChangeView>, actor: Seq<char>, n: int) -> (j: int)
    requires
        0 <= n <= s.len(),
        last_seq_upto(s, actor, n) > 0,
    ensures
        0 <= j < n,
        s[j].actor == actor,
        s[j].seq == last_seq_upto(s, actor, n),
    decreases n,
{
    let prev = last_seq_upto(s, actor, n - 1);
    if s[n - 1].actor == actor && s[n - 1].seq > prev {
        n - 1
    } else {
        lemma_last_seq_witness(s, actor, n - 1)
    }
}

/// A ready change can be recorded.
pub proof fn lemma_record_ready(s: Seq<ChangeView>, c: ChangeView)
    requires
        recorded_wf(s),
        standing(s, c) == Standing::Ready,
    ensures
        recorded_wf(s.push(c)),
{
    let t = s.push(c);
    assert forall|i: int, k: int| 0 <= i < t.len() && 0 <= k < t[i].deps.len() implies has_hash(
        t.take(i),
        #[trigger] t[i].deps[k],
    ) by {
        if i < s.len() {
            assert(t.take(i) =~= s.take(i));
            assert(has_hash(s.take(i), s[i].deps[k]));
        } else {
            assert(t.take(i) =~= s);
        }
    }
    assert forall|i: int| 0 <= i < t.len() implies (#[trigger] t[i]).seq == last_seq_upto(
        t,
        t[i].actor,
        i,
    ) + 1 by {
        lemma_last_seq_prefix(t, s, t[i].actor, i);
    }
}

/// What a `ClockEntry` is in contracts.
pub struct ClockEntryView {
    pub actor: Seq<char>,
    pub seq: u64,
}

/// One line of a clock: an actor and a sequence number seen of it.
#[derive(Clone, Debug, PartialEq)]
pub struct ClockEntry {
    pub actor: ActorID,
    pub seq: u64,
}

impl View for ClockEntry {
    type V = ClockEntryView;

    open spec fn view(&self) -> ClockEntryView {
        ClockEntryView { actor: self.actor@, seq: self.seq }
    }
}

/// The highest sequence number that the first `n` lines give for `actor`.
pub open spec fn clock_seq_upto(cl: Seq<ClockEntryView>, actor: Seq<char>, n: int) -> u64
    decreases n,
{
    if n <= 0 {
        0
    } else {
        let prev = clock_seq_upto(cl, actor, n - 1);
        if cl[n - 1].actor == actor && cl[n - 1].seq > prev {
            cl[n - 1].seq
        } else {
            prev
        }
    }
}

/// The sequence number that a clock holds for `actor`: the highest of its
/// lines for that actor, zero where it has none.
pub open spec fn clock_seq(cl: Seq<ClockEntryView>, actor: Seq<char>) -> u64 {
    clock_seq_upto(cl, actor, cl.len() as int)
}

/// A version vector: for each actor, the highest sequence number seen.
#[derive(Clone, Debug, PartialEq)]
pub struct Clock {
    pub entries: Vec<ClockEntry>,
}

impl View for Clock {
    type V = Seq<ClockEntryView>;

    open spec fn view(&self) -> Seq<ClockEntryView> {
        self.entries@.map_values(|e: ClockEntry| e@)
    }
}

impl Clock {
    /// The clock that has seen nothing.
    pub fn new() -> (c: Clock)
        ensures
            c@ == Seq::<ClockEntryView>::empty(),
    {
        let c = Clock { entries: Vec::new() };
        assert(c@ =~= Seq::<ClockEntryView>::empty());
        c
    }

    /// The sequence number held for `actor`.
    pub fn get(&self, actor: &ActorID) -> (n: u64)
        ensures
            n == clock_seq(self@, actor@),
    {
        let mut n: u64 = 0;
        let mut i: usize = 0;
        while i < self.entries.len()
            invariant
                i <= self.entries.len(),
                n == clock_seq_upto(self@, actor@, i as int),
            decreases self.entries.len() - i,
        {
            if self.entries[i].actor.same(actor) && self.entries[i].seq > n {
                n = self.entries[i].seq;
            }
            i = i + 1;
        }
        n
    }

    /// Notes that `seq` has been seen of `actor`.
    pub fn note(&mut self, actor: ActorID, seq: u64)
        ensures
            final(self)@ == old(self)@.push(ClockEntryView { actor: actor@, seq }),
    {
        self.entries.push(ClockEntry { actor, seq });
        assert(self@ =~= old(self)@.push(ClockEntryView { actor: actor@, seq }));
    }
}

/// The line that a change adds to the clock of its history.
pub open spec fn clock_line(c: ChangeView) -> ClockEntryView {
    ClockEntryView { actor: c.actor, seq: c.seq }
}

/// The clock of a history: a line for each recorded change.
pub open spec fn clock_of(s: Seq<ChangeView>) -> Seq<ClockEntryView> {
    s.map_values(|c: ChangeView| clock_line(c))
}

/// The clock of a history holds for each actor its highest sequence number.
pub proof fn lemma_clock_of_changes(s: Seq<ChangeView>, actor: Seq<char>, n: int)
    requires
        0 <= n <= s.len(),
    ensures
        clock_seq_upto(clock_of(s), actor, n) == last_seq_upto(s, actor, n),
    decreases n,
{
    if n > 0 {
        lemma_clock_of_changes(s, actor, n - 1);
    }
}

/// The first place at or after `i` of a waiting change that waits no
/// longer; the length of `queue` where there is none.
pub open spec fn first_movable(applied: Seq<ChangeView>, queue: Seq<ChangeView>, i: int) -> int
    decreases queue.len() - i,
{
    if i < 0 || i >= queue.len() {
        queue.len() as int
    } else if standing(applied, queue[i]) != Standing::Waiting {
        i
    } else {
        first_movable(applied, queue, i + 1)
    }
}

/// Picks the changes that a peer with the clock `cl` has not seen.
pub open spec fn unseen_pick(cl: Seq<ClockEntryView>) -> spec_fn(ChangeView) -> Option<
    ChangeView,
> {
    |c: ChangeView|
        if c.seq > clock_seq(cl, c.actor) {
            Some(c)
        } else {
            None
        }
}

/// The recorded changes that a peer with the clock `cl` has not seen, in the
/// order in which they were recorded.
pub open spec fn missing_changes(s: Seq<ChangeView>, cl: Seq<ClockEntryView>) -> Seq<ChangeView> {
    s.filter_map(unseen_pick(cl))
}

/// Picks the changes of one actor.
pub open spec fn actor_pick(actor: Seq<char>) -> spec_fn(ChangeView) -> Option<ChangeView> {
    |c: ChangeView|
        if c.actor == actor {
            Some(c)
        } else {
            None
        }
}

/// The recorded changes of one actor.
pub open spec fn changes_of(s: Seq<ChangeView>, actor: Seq<char>) -> Seq<ChangeView> {
    s.filter_map(actor_pick(actor))
}

/// Picks what the waiting changes still miss of their own actors.
pub open spec fn gap_pick(applied: Seq<ChangeView>) -> spec_fn(ChangeView) -> Option<
    ClockEntryView,
> {
    |q: ChangeView|
        if q.seq - 1 > last_seq(applied, q.actor) {
            Some(ClockEntryView { actor: q.actor, seq: (q.seq - 1) as u64 })
        } else {
            None
        }
}

/// For each waiting change whose actor's earlier changes have not all been
/// recorded, the sequence number of the last of them.
pub open spec fn missing_deps(applied: Seq<ChangeView>, queue: Seq<ChangeView>) -> Seq<
    ClockEntryView,
> {
    queue.filter_map(gap_pick(applied))
}

/// Picks the dependencies that are not recorded.
pub open spec fn absent_pick(s: Seq<ChangeView>) -> spec_fn(ChangeHash) -> Option<ChangeHash> {
    |h: ChangeHash|
        if has_hash(s, h) {
            None
        } else {
            Some(h)
        }
}

/// The dependencies of `c` that are not recorded in `s`.
pub open spec fn missing_hashes(s: Seq<ChangeView>, c: ChangeView) -> Seq<ChangeHash> {
    c.deps.filter_map(absent_pick(s))
}

/// What became of a change that was handed to the history.
#[derive(Clone, Debug, PartialEq)]
pub enum Recorded {
    /// It is recorded now.
    Accepted,
    /// It waits; these are the dependencies that are not recorded.
    Queued(Vec<ChangeHash>),
    /// It was refused.
    Rejected(AutomergeError),
    /// It was there already, and nothing was done.
    Known,
}

/// What a history is in contracts.
pub struct HistoryView {
    pub applied: Seq<ChangeView>,
    pub queue: Seq<ChangeView>,
}

/// What `History::record` makes of a history.
pub open spec fn record(h: HistoryView, c: ChangeView) -> HistoryView {
    match standing(h.applied, c) {
        Standing::Ready => HistoryView { applied: h.applied.push(c), queue: h.queue },
        Standing::Waiting => if has_hash(h.queue, c.hash) {
            h
        } else {
            HistoryView { applied: h.applied, queue: h.queue.push(c) }
        },
        _ => h,
    }
}

/// The recorded and the waiting changes.
pub struct History {
    applied: Vec<Change>,
    queue: Vec<Change>,
}

impl View for History {
    type V = HistoryView;

    closed spec fn view(&self) -> HistoryView {
        HistoryView { applied: changes_view(self.applied@), queue: changes_view(self.queue@) }
    }
}

impl History {
    #[verifier::type_invariant]
    closed spec fn well_formed(self) -> bool {
        recorded_wf(self@.applied)
    }

    /// The history that holds nothing.
    pub fn new() -> (h: History)
        ensures
            h@.applied == Seq::<ChangeView>::empty(),
            h@.queue == Seq::<ChangeView>::empty(),
    {
        let h = History { applied: Vec::new(), queue: Vec::new() };
        assert(h@.applied =~= Seq::<ChangeView>::empty());
        assert(h@.queue =~= Seq::<ChangeView>::empty());
        h
    }

    /// The number of recorded changes.
    pub fn len(&self) -> (n: usize)
        ensures
            n == self@.applied.len(),
            recorded_wf(self@.applied),
    {
        proof {
            use_type_invariant(self);
        }
        self.applied.len()
    }

    /// The recorded change at place `i`.
    pub fn get(&self, i: usize) -> (c: &Change)
        requires
            i < self@.applied.len(),
        ensures
            c@ == self@.applied[i as int],
    {
        &self.applied[i]
    }

    /// The number of waiting changes.
    pub fn waiting(&self) -> (n: usize)
        ensures
            n == self@.queue.len(),
    {
        self.queue.len()
    }

    /// Whether a change with this hash is recorded.
    pub fn has(&self, h: &ChangeHash) -> (b: bool)
        ensures
            b == has_hash(self@.applied, *h),
    {
        seq_has(&self.applied, h)
    }

    /// The highest sequence number recorded of `actor`.
    pub fn last_seq(&self, actor: &ActorID) -> (n: u64)
        ensures
            n == last_seq(self@.applied, actor@),
    {
        let mut n: u64 = 0;
        let mut i: usize = 0;
        while i < self.applied.len()
            invariant
                i <= self.applied.len(),
                n == last_seq_upto(self@.applied, actor@, i as int),
            decreases self.applied.len() - i,
        {
            if self.applied[i].actor.same(actor) && self.applied[i].seq > n {
                n = self.applied[i].seq;
            }
            i = i + 1;
        }
        n
    }

    /// Whether every dependency of `c` is recorded.
    pub fn deps_met(&self, c: &Change) -> (b: bool)
        ensures
            b == deps_met(self@.applied, c@),
    {
        let mut k: usize = 0;
        while k < c.dependencies.len()
            invariant
                k <= c.dependencies.len(),
                forall|j: int| 0 <= j < k ==> has_hash(self@.applied, #[trigger] c@.deps[j]),
            decreases c.dependencies.len() - k,
        {
            if !self.has(&c.dependencies[k]) {
                assert(c@.deps[k as int] == c.dependencies[k as int]);
                return false;
            }
            k = k + 1;
        }
        true
    }

    /// How `c` stands to the recorded changes.
    pub fn standing(&self, c: &Change) -> (r: Standing)
        ensures
            r == standing(self@.applied, c@),
    {
        if self.has(&c.hash) {
            return Standing::Duplicate;
        }
        let last = self.last_seq(&c.actor);
        if c.seq <= last {
            Standing::Stale
        } else if c.seq - 1 == last && self.deps_met(c) {
            Standing::Ready
        } else {
            Standing::Waiting
        }
    }

    /// The dependencies of `c` that are not recorded.
    pub fn missing_hashes(&self, c: &Change) -> (r: Vec<ChangeHash>)
        ensures
            r@ == missing_hashes(self@.applied, c@),
    {
        let ghost f = absent_pick(self@.applied);
        let mut out: Vec<ChangeHash> = Vec::new();
        let mut k: usize = 0;
        assert(c@.deps.take(0).filter_map(f) =~= Seq::empty());
        while k < c.dependencies.len()
            invariant
                k <= c.dependencies.len(),
                f == absent_pick(self@.applied),
                out@ =~= c@.deps.take(k as int).filter_map(f),
            decreases c.dependencies.len() - k,
        {
            proof {
                lemma_filter_map_step(c@.deps, f, k as int);
            }
            if !self.has(&c.dependencies[k]) {
                out.push(c.dependencies[k]);
            }
            k = k + 1;
        }
        assert(c@.deps.take(c@.deps.len() as int) =~= c@.deps);
        out
    }

    /// Appends a ready change to the recorded ones.
    pub fn accept(&mut self, c: Change)
        requires
            standing(old(self)@.applied, c@) == Standing::Ready,
        ensures
            final(self)@.applied == old(self)@.applied.push(c@),
            final(self)@.queue == old(self)@.queue,
            recorded_wf(final(self)@.applied),
    {
        proof {
            use_type_invariant(&*self);
            lemma_record_ready(self@.applied, c@);
        }
        let ghost s = self@.applied;
        let mut held: Vec<Change> = Vec::new();
        std::mem::swap(&mut self.applied, &mut held);
        held.push(c);
        assert(changes_view(held@) =~= s.push(c@));
        self.applied = held;
    }

    /// Whether a change with this hash waits.
    pub fn is_waiting(&self, h: &ChangeHash) -> (b: bool)
        ensures
            b == has_hash(self@.queue, *h),
    {
        seq_has(&self.queue, h)
    }

    /// Puts a change among the waiting ones.
    pub fn enqueue(&mut self, c: Change)
        ensures
            final(self)@.applied == old(self)@.applied,
            final(self)@.queue == old(self)@.queue.push(c@),
    {
        proof {
            use_type_invariant(&*self);
        }
        let ghost q = self@.queue;
        let mut held: Vec<Change> = Vec::new();
        std::mem::swap(&mut self.queue, &mut held);
        held.push(c);
        assert(changes_view(held@) =~= q.push(c@));
        self.queue = held;
    }

    /// Takes out the first waiting change that waits no longer.
    pub fn take_movable(&mut self) -> (r: Option<Change>)
        ensures
            final(self)@.applied == old(self)@.applied,
            r is Some ==> 0 <= first_movable(old(self)@.applied, old(self)@.queue, 0) < old(self)@.queue.len(),
            r is Some ==> r->0@ == old(self)@.queue[first_movable(old(self)@.applied, old(self)@.queue, 0)],
            r is Some ==> final(self)@.queue == old(self)@.queue.remove(
                first_movable(old(self)@.applied, old(self)@.queue, 0),
            ),
            r is None ==> first_movable(old(self)@.applied, old(self)@.queue, 0) == old(self)@.queue.len(),
            r is None ==> final(self)@.queue == old(self)@.queue,
    {
        let i = self.find_movable();
        if i < self.queue.len() {
            proof {
                use_type_invariant(&*self);
            }
            let ghost q = self@.queue;
            let mut held: Vec<Change> = Vec::new();
            std::mem::swap(&mut self.queue, &mut held);
            let c = held.remove(i);
            assert(changes_view(held@) =~= q.remove(i as int));
            self.queue = held;
            Some(c)
        } else {
            None
        }
    }

    /// The place of the first waiting change that waits no longer.
    fn find_movable(&self) -> (i: usize)
        ensures
            i == first_movable(self@.applied, self@.queue, 0),
            i <= self@.queue.len(),
    {
        let mut i: usize = 0;
        while i < self.queue.len()
            invariant
                i <= self.queue.len(),
                first_movable(self@.applied, self@.queue, 0) == first_movable(
                    self@.applied,
                    self@.queue,
                    i as int,
                ),
            decreases self.queue.len() - i,
        {
            let st = self.standing(&self.queue[i]);
            assert(st == standing(self@.applied, self@.queue[i as int]));
            if st != Standing::Waiting {
                return i;
            }
            i = i + 1;
        }
        i
    }

    /// Hands a change to the history: a ready one is recorded, one that has
    /// to wait is kept for later, a stale one is refused, and one that is
    /// already there changes nothing.
    pub fn record(&mut self, c: Change) -> (r: Recorded)
        ensures
            final(self)@ == record(old(self)@, c@),
            match standing(old(self)@.applied, c@) {
                Standing::Duplicate => r == Recorded::Known,
                Standing::Stale => r == Recorded::Rejected(AutomergeError::InvalidSequence),
                Standing::Ready => r == Recorded::Accepted,
                Standing::Waiting => r matches Recorded::Queued(m) && m@ == missing_hashes(
                    old(self)@.applied,
                    c@,
                ),
            },
    {
        match self.standing(&c) {
            Standing::Duplicate => Recorded::Known,
            Standing::Stale => Recorded::Rejected(AutomergeError::InvalidSequence),
            Standing::Ready => {
                self.accept(c);
                Recorded::Accepted
            },
            Standing::Waiting => {
                let m = self.missing_hashes(&c);
                if !self.is_waiting(&c.hash) {
                    self.enqueue(c);
                }
                Recorded::Queued(m)
            },
        }
    }

    /// The recorded changes that a peer with this clock has not seen.
    pub fn missing_changes(&self, clock: &Clock) -> (r: Vec<Change>)
        ensures
            changes_view(r@) == missing_changes(self@.applied, clock@),
    {
        let ghost f = unseen_pick(clock@);
        let ghost s = self@.applied;
        let mut out: Vec<Change> = Vec::new();
        let mut i: usize = 0;
        assert(s.take(0).filter_map(f) =~= Seq::empty());
        while i < self.applied.len()
            invariant
                i <= self.applied.len(),
                s == self@.applied,
                f == unseen_pick(clock@),
                changes_view(out@) =~= s.take(i as int).filter_map(f),
            decreases self.applied.len() - i,
        {
            proof {
                lemma_filter_map_step(s, f, i as int);
            }
            let c = &self.applied[i];
            if c.seq > clock.get(&c.actor) {
                out.push(c.duplicate());
            }
            i = i + 1;
        }
        assert(s.take(s.len() as int) =~= s);
        out
    }

    /// What the waiting changes still miss of their own actors.
    pub fn missing_deps(&self) -> (r: Clock)
        ensures
            r@ == missing_deps(self@.applied, self@.queue),
    {
        let ghost f = gap_pick(self@.applied);
        let ghost q = self@.queue;
        let mut out = Clock::new();
        let mut i: usize = 0;
        assert(q.take(0).filter_map(f) =~= Seq::empty());
        while i < self.queue.len()
            invariant
                i <= self.queue.len(),
                q == self@.queue,
                f == gap_pick(self@.applied),
                out@ =~= q.take(i as int).filter_map(f),
            decreases self.queue.len() - i,
        {
            proof {
                lemma_filter_map_step(q, f, i as int);
            }
            let c = &self.queue[i];
            if c.seq > 0 && c.seq - 1 > self.last_seq(&c.actor) {
                out.note(c.actor.duplicate(), c.seq - 1);
            }
            i = i + 1;
        }
        assert(q.take(q.len() as int) =~= q);
        out
    }

    /// The recorded changes of one actor.
    pub fn changes_for_actor(&self, actor: &ActorID) -> (r: Vec<Change>)
        ensures
            changes_view(r@) == changes_of(self@.applied, actor@),
    {
        let ghost f = actor_pick(actor@);
        let ghost s = self@.applied;
        let mut out: Vec<Change> = Vec::new();
        let mut i: usize = 0;
        assert(s.take(0).filter_map(f) =~= Seq::empty());
        while i < self.applied.len()
            invariant
                i <= self.applied.len(),
                s == self@.applied,
                f == actor_pick(actor@),
                changes_view(out@) =~= s.take(i as int).filter_map(f),
            decreases self.applied.len() - i,
        {
            proof {
                lemma_filter_map_step(s, f, i as int);
            }
            let c = &self.applied[i];
            if c.actor.same(actor) {
                out.push(c.duplicate());
            }
            i = i + 1;
        }
        assert(s.take(s.len() as int) =~= s);
        out
    }

    /// Every recorded change, in the order of recording.
    pub fn all_changes(&self) -> (r: Vec<Change>)
        ensures
            changes_view(r@) == self@.applied,
    {
        crate::change::duplicate_changes(&self.applied)
    }

    /// The clock of the history: a line for each recorded change.
    pub fn clock(&self) -> (r: Clock)
        ensures
            r@ == clock_of(self@.applied),
    {
        let mut out = Clock::new();
        let mut i: usize = 0;
        while i < self.applied.len()
            invariant
                i <= self.applied.len(),
                out@.len() == i,
                forall|j: int| 0 <= j < i ==> out@[j] == clock_line(self@.applied[j]),
            decreases self.applied.len() - i,
        {
            out.note(self.applied[i].actor.duplicate(), self.applied[i].seq);
            i = i + 1;
        }
        assert(out@ =~= clock_of(self@.applied));
        out
    }

    /// A copy of the history.
    pub fn duplicate(&self) -> (r: History)
        ensures
            r@ == self@,
    {
        proof {
            use_type_invariant(self);
        }
        History {
            applied: crate::change::duplicate_changes(&self.applied),
            queue: crate::change::duplicate_changes(&self.queue),
        }
    }
}

/// Whether a change with this hash is in `v`.
fn seq_has(v: &Vec<Change>, h: &ChangeHash) -> (b: bool)
    ensures
        b == has_hash(changes_view(v@), *h),
{
    let mut i: usize = 0;
    while i < v.len()
        invariant
            i <= v.len(),
            forall|j: int| 0 <= j < i ==> changes_view(v@)[j].hash != *h,
        decreases v.len() - i,
    {
        if v[i].hash == *h {
            assert(changes_view(v@)[i as int].hash == *h);
            return true;
        }
        i = i + 1;
    }
    false
}

} // verus!
