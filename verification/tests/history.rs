use automerge_backend::{
    ActorID, AutomergeError, Change, ChangeHash, Clock, ClockEntry, History, Recorded, Standing,
};

fn change(h: u128, who: &str, seq: u64, deps: Vec<u128>) -> Change {
    Change {
        hash: ChangeHash(0, h),
        actor: ActorID(who.to_string()),
        seq,
        start_op: 1,
        timestamp: 0,
        message: Some("note".to_string()),
        dependencies: deps.into_iter().map(|d| ChangeHash(0, d)).collect(),
        operations: Vec::new(),
    }
}

fn actor(name: &str) -> ActorID {
    ActorID(name.to_string())
}

#[test]
fn a_new_history_holds_nothing() {
    let h = History::new();
    assert_eq!(h.len(), 0);
    assert_eq!(h.waiting(), 0);
    assert!(h.all_changes().is_empty());
    assert_eq!(h.last_seq(&actor("a")), 0);
    assert!(!h.has(&ChangeHash(0, 1)));
}

#[test]
fn a_ready_change_is_accepted() {
    let mut h = History::new();
    let c = change(1, "a", 1, vec![]);
    assert_eq!(h.standing(&c), Standing::Ready);
    assert_eq!(h.record(c.clone()), Recorded::Accepted);
    assert_eq!(h.len(), 1);
    assert_eq!(h.get(0), &c);
    assert!(h.has(&ChangeHash(0, 1)));
    assert_eq!(h.last_seq(&actor("a")), 1);
    assert_eq!(h.last_seq(&actor("b")), 0);
}

#[test]
fn a_known_change_changes_nothing() {
    let mut h = History::new();
    let c = change(1, "a", 1, vec![]);
    h.record(c.clone());
    assert_eq!(h.standing(&c), Standing::Duplicate);
    assert_eq!(h.record(c), Recorded::Known);
    assert_eq!(h.len(), 1);
    assert_eq!(h.waiting(), 0);
}

#[test]
fn a_stale_change_is_rejected() {
    let mut h = History::new();
    h.record(change(1, "a", 1, vec![]));
    let c = change(2, "a", 1, vec![]);
    assert_eq!(h.standing(&c), Standing::Stale);
    assert_eq!(h.record(c), Recorded::Rejected(AutomergeError::InvalidSequence));
    let zero = change(3, "b", 0, vec![]);
    assert_eq!(h.record(zero), Recorded::Rejected(AutomergeError::InvalidSequence));
    assert_eq!(h.len(), 1);
    assert_eq!(h.waiting(), 0);
}

#[test]
fn a_change_with_a_missing_dependency_is_queued() {
    let mut h = History::new();
    h.record(change(1, "a", 1, vec![]));
    let c = change(3, "b", 1, vec![1, 2, 9]);
    assert_eq!(h.standing(&c), Standing::Waiting);
    assert!(!h.deps_met(&c));
    assert_eq!(h.missing_hashes(&c), vec![ChangeHash(0, 2), ChangeHash(0, 9)]);
    assert_eq!(
        h.record(c.clone()),
        Recorded::Queued(vec![ChangeHash(0, 2), ChangeHash(0, 9)])
    );
    assert_eq!(h.waiting(), 1);
    assert!(h.is_waiting(&ChangeHash(0, 3)));
    assert_eq!(h.record(c), Recorded::Queued(vec![ChangeHash(0, 2), ChangeHash(0, 9)]));
    assert_eq!(h.waiting(), 1);
    assert_eq!(h.len(), 1);
}

#[test]
fn a_change_ahead_of_its_actor_is_queued_and_moves_later() {
    let mut h = History::new();
    let second = change(2, "a", 2, vec![]);
    assert_eq!(h.record(second.clone()), Recorded::Queued(vec![]));
    assert_eq!(
        h.missing_deps(),
        Clock { entries: vec![ClockEntry { actor: actor("a"), seq: 1 }] }
    );
    assert_eq!(h.take_movable(), None);
    assert_eq!(h.record(change(1, "a", 1, vec![])), Recorded::Accepted);
    assert!(h.missing_deps().entries.is_empty());
    let moved = h.take_movable();
    assert_eq!(moved, Some(second.clone()));
    assert_eq!(h.waiting(), 0);
    assert_eq!(h.standing(&second), Standing::Ready);
    h.accept(second);
    assert_eq!(h.len(), 2);
    assert_eq!(h.last_seq(&actor("a")), 2);
}

#[test]
fn the_first_movable_change_is_taken() {
    let mut h = History::new();
    h.enqueue(change(5, "c", 3, vec![]));
    h.enqueue(change(2, "a", 1, vec![1]));
    h.enqueue(change(3, "b", 1, vec![]));
    h.enqueue(change(4, "d", 1, vec![]));
    assert_eq!(h.take_movable(), Some(change(3, "b", 1, vec![])));
    assert_eq!(h.waiting(), 3);
    assert_eq!(h.take_movable(), Some(change(4, "d", 1, vec![])));
    h.accept(change(1, "z", 1, vec![]));
    assert_eq!(h.take_movable(), Some(change(2, "a", 1, vec![1])));
    assert_eq!(h.take_movable(), None);
    assert_eq!(h.waiting(), 1);
}

#[test]
fn changes_are_exported_by_actor_and_by_clock() {
    let mut h = History::new();
    let a1 = change(1, "a", 1, vec![]);
    let b1 = change(2, "b", 1, vec![1]);
    let a2 = change(3, "a", 2, vec![2]);
    for c in [a1.clone(), b1.clone(), a2.clone()] {
        assert_eq!(h.record(c), Recorded::Accepted);
    }
    assert_eq!(h.all_changes(), vec![a1.clone(), b1.clone(), a2.clone()]);
    assert_eq!(h.changes_for_actor(&actor("a")), vec![a1.clone(), a2.clone()]);
    assert_eq!(h.changes_for_actor(&actor("b")), vec![b1.clone()]);
    let mut clock = Clock::new();
    assert_eq!(h.missing_changes(&clock), vec![a1, b1.clone(), a2.clone()]);
    clock.note(actor("a"), 1);
    assert_eq!(h.missing_changes(&clock), vec![b1, a2.clone()]);
    clock.note(actor("b"), 4);
    clock.note(actor("b"), 2);
    assert_eq!(clock.get(&actor("b")), 4);
    assert_eq!(h.missing_changes(&clock), vec![a2]);
    clock.note(actor("a"), 2);
    assert!(h.missing_changes(&clock).is_empty());
    let own = h.clock();
    assert_eq!(own.get(&actor("a")), 2);
    assert_eq!(own.get(&actor("b")), 1);
    assert!(h.missing_changes(&own).is_empty());
    let copy = h.duplicate();
    assert_eq!(copy.all_changes(), h.all_changes());
}
