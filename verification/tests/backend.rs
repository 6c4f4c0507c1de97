use automerge_backend::{
    ActorID, AutomergeError, Backend, Change, ChangeHash, Clock, ClockEntry, Conflict, DataType,
    ElementID, Key, ListPatch, ObjType, ObjectID, OpID, OpType, Operation, Patch, PatchValue,
    PropPatch, Value,
};

fn actor(name: &str) -> ActorID {
    ActorID(name.to_string())
}

fn opid(counter: u64, actor: &str) -> OpID {
    OpID(counter, actor.to_string())
}

fn hash(n: u128) -> ChangeHash {
    ChangeHash(0, n)
}

fn prop(name: &str) -> Key {
    Key::Prop(name.to_string())
}

fn op(action: OpType, object: ObjectID, key: Key) -> Operation {
    Operation {
        action,
        object,
        key,
        value: None,
        datatype: None,
        insert: false,
        predecessors: Vec::new(),
        child: None,
    }
}

fn assign(object: ObjectID, key: Key, value: Value, pred: Vec<OpID>) -> Operation {
    let mut o = op(OpType::Assign, object, key);
    o.value = Some(value);
    o.predecessors = pred;
    o
}

fn insert(object: ObjectID, after: ElementID, value: Value) -> Operation {
    let mut o = op(OpType::Assign, object, Key::Elem(after));
    o.value = Some(value);
    o.insert = true;
    o
}

fn delete(object: ObjectID, key: Key, pred: Vec<OpID>) -> Operation {
    let mut o = op(OpType::Del, object, key);
    o.predecessors = pred;
    o
}

fn increment(object: ObjectID, key: Key, by: i64, pred: Vec<OpID>) -> Operation {
    let mut o = op(OpType::Inc, object, key);
    o.value = Some(Value::Int(by));
    o.predecessors = pred;
    o
}

fn change(
    h: u128,
    who: &str,
    seq: u64,
    start_op: u64,
    deps: Vec<u128>,
    operations: Vec<Operation>,
) -> Change {
    Change {
        hash: hash(h),
        actor: actor(who),
        seq,
        start_op,
        timestamp: 0,
        message: None,
        dependencies: deps.into_iter().map(hash).collect(),
        operations,
    }
}

fn text(s: &str) -> Value {
    Value::Str(s.to_string())
}

fn scalar(id: OpID, v: Value) -> Conflict {
    Conflict { id, value: PatchValue::Scalar(v) }
}

fn set_bird(h: u128, who: &str, seq: u64, start_op: u64, deps: Vec<u128>, v: &str, pred: Vec<OpID>) -> Change {
    change(h, who, seq, start_op, deps, vec![assign(ObjectID::Root, prop("bird"), text(v), pred)])
}

#[test]
fn a_new_backend_is_empty() {
    let b = Backend::init();
    assert_eq!(b.get_patch(), Patch { props: vec![], lists: vec![] });
    assert!(b.get_changes().is_empty());
    assert!(b.get_missing_deps().entries.is_empty());
    assert!(b.clock().entries.is_empty());
}

#[test]
fn a_scalar_is_shown_with_a_single_conflict() {
    let mut b = Backend::init();
    let patch = b.apply_changes(vec![set_bird(1, "a", 1, 1, vec![], "magpie", vec![])]).unwrap();
    let expected = Patch {
        props: vec![PropPatch {
            object: ObjectID::Root,
            key: prop("bird"),
            conflicts: vec![scalar(opid(1, "a"), text("magpie"))],
            resolved: Some(opid(1, "a")),
        }],
        lists: vec![],
    };
    assert_eq!(patch, expected);
    assert_eq!(b.get_patch(), expected);
}

#[test]
fn an_overwrite_retires_its_predecessor() {
    let mut b = Backend::init();
    b.apply_changes(vec![set_bird(1, "a", 1, 1, vec![], "magpie", vec![])]).unwrap();
    let patch = b
        .apply_changes(vec![set_bird(2, "a", 2, 2, vec![1], "wren", vec![opid(1, "a")])])
        .unwrap();
    assert_eq!(patch.props.len(), 1);
    assert_eq!(patch.props[0].conflicts, vec![scalar(opid(2, "a"), text("wren"))]);
    assert_eq!(patch.props[0].resolved, Some(opid(2, "a")));
    assert_eq!(b.get_patch(), patch);
}

#[test]
fn concurrent_writes_stay_as_conflicts_and_the_greatest_writer_wins() {
    let first = set_bird(1, "a", 1, 1, vec![], "magpie", vec![]);
    let second = set_bird(2, "b", 1, 1, vec![], "wren", vec![]);
    let mut x = Backend::init();
    x.apply_changes(vec![first.clone(), second.clone()]).unwrap();
    let mut y = Backend::init();
    y.apply_changes(vec![second]).unwrap();
    y.apply_changes(vec![first]).unwrap();
    let patch = x.get_patch();
    assert_eq!(patch, y.get_patch());
    assert_eq!(
        patch.props[0].conflicts,
        vec![scalar(opid(1, "a"), text("magpie")), scalar(opid(1, "b"), text("wren"))]
    );
    assert_eq!(patch.props[0].resolved, Some(opid(1, "b")));
}

#[test]
fn a_delete_empties_the_conflict_set() {
    let mut b = Backend::init();
    b.apply_changes(vec![set_bird(1, "a", 1, 1, vec![], "magpie", vec![])]).unwrap();
    let del = change(
        2,
        "a",
        2,
        2,
        vec![1],
        vec![delete(ObjectID::Root, prop("bird"), vec![opid(1, "a")])],
    );
    let patch = b.apply_changes(vec![del]).unwrap();
    assert_eq!(
        patch,
        Patch {
            props: vec![PropPatch {
                object: ObjectID::Root,
                key: prop("bird"),
                conflicts: vec![],
                resolved: None,
            }],
            lists: vec![],
        }
    );
    assert_eq!(b.get_patch(), Patch { props: vec![], lists: vec![] });
    assert_eq!(b.get_changes().len(), 2);
}

fn counter_changes() -> (Change, Change, Change) {
    let mut base = assign(ObjectID::Root, prop("n"), Value::Int(10), vec![]);
    base.datatype = Some(DataType::Counter);
    let make = change(1, "a", 1, 1, vec![], vec![base]);
    let inc_a = change(
        2,
        "a",
        2,
        2,
        vec![1],
        vec![increment(ObjectID::Root, prop("n"), 1, vec![opid(1, "a")])],
    );
    let inc_b = change(
        3,
        "b",
        1,
        2,
        vec![1],
        vec![increment(ObjectID::Root, prop("n"), 1, vec![opid(1, "a")])],
    );
    (make, inc_a, inc_b)
}

#[test]
fn concurrent_increments_add_up() {
    let (make, inc_a, inc_b) = counter_changes();
    let mut x = Backend::init();
    x.apply_changes(vec![make.clone(), inc_a.clone(), inc_b.clone()]).unwrap();
    let mut y = Backend::init();
    y.apply_changes(vec![make, inc_b, inc_a]).unwrap();
    let patch = x.get_patch();
    assert_eq!(patch, y.get_patch());
    assert_eq!(patch.props.len(), 1);
    assert_eq!(patch.props[0].conflicts, vec![scalar(opid(1, "a"), Value::Counter(12))]);
    assert_eq!(patch.props[0].resolved, Some(opid(1, "a")));
}

#[test]
fn a_counter_wraps_around() {
    let mut base = assign(ObjectID::Root, prop("n"), Value::Int(i64::MAX), vec![]);
    base.datatype = Some(DataType::Counter);
    let mut b = Backend::init();
    b.apply_changes(vec![
        change(1, "a", 1, 1, vec![], vec![base]),
        change(
            2,
            "a",
            2,
            2,
            vec![1],
            vec![increment(ObjectID::Root, prop("n"), 1, vec![opid(1, "a")])],
        ),
    ])
    .unwrap();
    assert_eq!(
        b.get_patch().props[0].conflicts,
        vec![scalar(opid(1, "a"), Value::Counter(i64::MIN))]
    );
}

fn list_changes() -> (Change, Change, Change) {
    let mut make_list = op(OpType::MakeList, ObjectID::Root, prop("birds"));
    make_list.value = None;
    let make = change(1, "a", 1, 1, vec![], vec![make_list]);
    let list = ObjectID::ID(opid(1, "a"));
    let by_a = change(2, "a", 2, 2, vec![1], vec![insert(list.clone(), ElementID::Head, text("x"))]);
    let by_b = change(3, "b", 1, 2, vec![1], vec![insert(list, ElementID::Head, text("y"))]);
    (make, by_a, by_b)
}

#[test]
fn concurrent_inserts_at_the_head_come_in_descending_order() {
    let (make, by_a, by_b) = list_changes();
    let mut x = Backend::init();
    x.apply_changes(vec![make.clone(), by_a.clone(), by_b.clone()]).unwrap();
    let mut y = Backend::init();
    y.apply_changes(vec![make]).unwrap();
    y.apply_changes(vec![by_b]).unwrap();
    y.apply_changes(vec![by_a]).unwrap();
    let patch = x.get_patch();
    assert_eq!(patch, y.get_patch());
    let list = ObjectID::ID(opid(1, "a"));
    assert_eq!(
        patch.lists,
        vec![ListPatch { object: list.clone(), elements: vec![opid(2, "b"), opid(2, "a")] }]
    );
    assert_eq!(
        patch.props[0],
        PropPatch {
            object: ObjectID::Root,
            key: prop("birds"),
            conflicts: vec![Conflict {
                id: opid(1, "a"),
                value: PatchValue::Object(list.clone(), ObjType::List),
            }],
            resolved: Some(opid(1, "a")),
        }
    );
    assert_eq!(patch.props[1].key, Key::Elem(ElementID::ID(opid(2, "a"))));
    assert_eq!(patch.props[1].conflicts, vec![scalar(opid(2, "a"), text("x"))]);
    assert_eq!(patch.props[2].key, Key::Elem(ElementID::ID(opid(2, "b"))));
    assert_eq!(patch.props[2].conflicts, vec![scalar(opid(2, "b"), text("y"))]);
}

#[test]
fn typing_in_order_and_deleting_an_element() {
    let list = ObjectID::ID(opid(1, "a"));
    let mut b = Backend::init();
    b.apply_changes(vec![change(
        1,
        "a",
        1,
        1,
        vec![],
        vec![
            op(OpType::MakeText, ObjectID::Root, prop("t")),
            insert(list.clone(), ElementID::Head, text("h")),
            insert(list.clone(), ElementID::ID(opid(2, "a")), text("i")),
            insert(list.clone(), ElementID::ID(opid(3, "a")), text("!")),
        ],
    )])
    .unwrap();
    assert_eq!(
        b.get_patch().lists,
        vec![ListPatch {
            object: list.clone(),
            elements: vec![opid(2, "a"), opid(3, "a"), opid(4, "a")],
        }]
    );
    let patch = b
        .apply_changes(vec![change(
            2,
            "a",
            2,
            5,
            vec![1],
            vec![
                delete(list.clone(), Key::Elem(ElementID::ID(opid(3, "a"))), vec![opid(3, "a")]),
                insert(list.clone(), ElementID::ID(opid(2, "a")), text("o")),
            ],
        )])
        .unwrap();
    assert_eq!(
        patch.lists,
        vec![ListPatch {
            object: list.clone(),
            elements: vec![opid(2, "a"), opid(6, "a"), opid(4, "a")],
        }]
    );
    assert_eq!(patch.props.len(), 2);
    assert!(patch.props[0].conflicts.is_empty());
    assert_eq!(patch.props[1].conflicts, vec![scalar(opid(6, "a"), text("o"))]);
}

#[test]
fn a_change_waits_for_its_dependency() {
    let first = set_bird(1, "a", 1, 1, vec![], "magpie", vec![]);
    let second = set_bird(2, "a", 2, 2, vec![1], "wren", vec![opid(1, "a")]);
    let mut b = Backend::init();
    let patch = b.apply_changes(vec![second.clone()]).unwrap();
    assert_eq!(patch, Patch { props: vec![], lists: vec![] });
    assert_eq!(b.get_patch(), Patch { props: vec![], lists: vec![] });
    assert!(b.get_changes().is_empty());
    assert_eq!(
        b.get_missing_deps(),
        Clock { entries: vec![ClockEntry { actor: actor("a"), seq: 1 }] }
    );
    let patch = b.apply_changes(vec![first.clone()]).unwrap();
    assert_eq!(patch.props.len(), 1);
    assert_eq!(patch.props[0].conflicts, vec![scalar(opid(2, "a"), text("wren"))]);
    assert_eq!(b.get_changes(), vec![first, second]);
    assert!(b.get_missing_deps().entries.is_empty());
}

#[test]
fn a_change_handed_in_twice_counts_once() {
    let first = set_bird(1, "a", 1, 1, vec![], "magpie", vec![]);
    let mut once = Backend::init();
    once.apply_changes(vec![first.clone()]).unwrap();
    let mut twice = Backend::init();
    twice.apply_changes(vec![first.clone()]).unwrap();
    let patch = twice.apply_changes(vec![first.clone()]).unwrap();
    assert_eq!(patch, Patch { props: vec![], lists: vec![] });
    assert_eq!(once.get_patch(), twice.get_patch());
    assert_eq!(once.get_changes(), twice.get_changes());
    let waiting = set_bird(3, "b", 2, 5, vec![], "crow", vec![]);
    twice.apply_changes(vec![waiting.clone(), waiting]).unwrap();
    assert_eq!(
        twice.get_missing_deps(),
        Clock { entries: vec![ClockEntry { actor: actor("b"), seq: 1 }] }
    );
}

#[test]
fn a_stale_sequence_number_is_refused() {
    let mut b = Backend::init();
    b.apply_changes(vec![set_bird(1, "a", 1, 1, vec![], "magpie", vec![])]).unwrap();
    let before = b.get_patch();
    let again = set_bird(9, "a", 1, 2, vec![1], "wren", vec![]);
    assert_eq!(b.apply_changes(vec![again.clone()]), Err(AutomergeError::InvalidSequence));
    assert_eq!(b.apply_local_change(again), Err(AutomergeError::InvalidSequence));
    let gap = set_bird(10, "a", 3, 2, vec![1], "wren", vec![]);
    assert_eq!(b.apply_local_change(gap), Err(AutomergeError::InvalidSequence));
    assert_eq!(b.get_patch(), before);
    assert_eq!(b.get_changes().len(), 1);
}

#[test]
fn a_local_change_must_rest_on_recorded_changes() {
    let mut b = Backend::init();
    let orphan = set_bird(2, "a", 1, 1, vec![7], "wren", vec![]);
    assert_eq!(b.apply_local_change(orphan), Err(AutomergeError::InvalidChange));
    let good = set_bird(1, "a", 1, 1, vec![], "magpie", vec![]);
    let patch = b.apply_local_change(good).unwrap();
    assert_eq!(patch.props[0].conflicts, vec![scalar(opid(1, "a"), text("magpie"))]);
    assert_eq!(patch, b.get_patch());
}

#[test]
fn a_failing_batch_changes_nothing() {
    let mut b = Backend::init();
    b.apply_changes(vec![set_bird(1, "a", 1, 1, vec![], "magpie", vec![])]).unwrap();
    let before = b.get_patch();
    let good = set_bird(2, "a", 2, 2, vec![1], "wren", vec![opid(1, "a")]);
    let bad = change(
        3,
        "a",
        3,
        3,
        vec![2],
        vec![assign(ObjectID::ID(opid(40, "z")), prop("x"), text("y"), vec![])],
    );
    assert_eq!(b.apply_changes(vec![good, bad]), Err(AutomergeError::MissingObject));
    assert_eq!(b.get_patch(), before);
    assert_eq!(b.get_changes().len(), 1);
}

#[test]
fn malformed_operations_are_refused() {
    let list = ObjectID::ID(opid(1, "a"));
    let mut b = Backend::init();
    b.apply_changes(vec![change(
        1,
        "a",
        1,
        1,
        vec![],
        vec![op(OpType::MakeList, ObjectID::Root, prop("l"))],
    )])
    .unwrap();
    let try_op = |b: &mut Backend, o: Operation| {
        b.apply_changes(vec![change(2, "a", 2, 2, vec![1], vec![o])])
    };
    assert_eq!(
        try_op(&mut b, insert(list.clone(), ElementID::ID(opid(9, "q")), text("x"))),
        Err(AutomergeError::MissingElement)
    );
    assert_eq!(
        try_op(&mut b, delete(list.clone(), Key::Elem(ElementID::Head), vec![])),
        Err(AutomergeError::MissingElement)
    );
    assert_eq!(
        try_op(&mut b, assign(list.clone(), prop("x"), text("x"), vec![])),
        Err(AutomergeError::InvalidChange)
    );
    assert_eq!(
        try_op(&mut b, insert(ObjectID::Root, ElementID::Head, text("x"))),
        Err(AutomergeError::InvalidChange)
    );
    assert_eq!(
        try_op(&mut b, assign(ObjectID::Root, prop("x"), text("x"), vec![opid(7, "n")])),
        Err(AutomergeError::InvalidChange)
    );
    assert_eq!(
        try_op(&mut b, op(OpType::Assign, ObjectID::Root, prop("x"))),
        Err(AutomergeError::EncodingError)
    );
    let mut inc = op(OpType::Inc, ObjectID::Root, prop("x"));
    inc.value = Some(text("one"));
    assert_eq!(try_op(&mut b, inc), Err(AutomergeError::EncodingError));
    assert_eq!(
        try_op(&mut b, op(OpType::Link, ObjectID::Root, prop("x"))),
        Err(AutomergeError::InvalidChange)
    );
    let mut link = op(OpType::Link, ObjectID::Root, prop("x"));
    link.child = Some(ObjectID::ID(opid(5, "n")));
    assert_eq!(try_op(&mut b, link), Err(AutomergeError::MissingObject));
    assert_eq!(
        b.apply_changes(vec![change(
            2,
            "a",
            2,
            u64::MAX,
            vec![1],
            vec![
                assign(ObjectID::Root, prop("x"), text("x"), vec![]),
                assign(ObjectID::Root, prop("y"), text("y"), vec![]),
            ],
        )]),
        Err(AutomergeError::InvalidChange)
    );
    assert_eq!(
        b.apply_changes(vec![change(
            2,
            "a",
            2,
            1,
            vec![1],
            vec![assign(ObjectID::Root, prop("x"), text("x"), vec![])],
        )]),
        Err(AutomergeError::InvalidChange)
    );
    assert_eq!(b.get_changes().len(), 1);
    let mut link = op(OpType::Link, ObjectID::Root, prop("alias"));
    link.child = Some(list.clone());
    let patch = try_op(&mut b, link).unwrap();
    assert_eq!(
        patch.props[0].conflicts,
        vec![Conflict { id: opid(2, "a"), value: PatchValue::Object(list, ObjType::List) }]
    );
}

#[test]
fn merging_both_ways_gives_the_same_document() {
    let (make, by_a, by_b) = list_changes();
    let mut x = Backend::init();
    x.apply_changes(vec![make.clone(), by_a]).unwrap();
    let mut y = Backend::init();
    y.apply_changes(vec![make, by_b]).unwrap();
    let patch = x.merge(&y).unwrap();
    assert_eq!(patch.lists[0].elements, vec![opid(2, "b"), opid(2, "a")]);
    y.merge(&x).unwrap();
    assert_eq!(x.get_patch(), y.get_patch());
    assert_eq!(x.get_changes().len(), 3);
    assert_eq!(y.get_changes().len(), 3);
    let before = x.get_patch();
    let again = x.merge(&y).unwrap();
    assert_eq!(again, Patch { props: vec![], lists: vec![] });
    assert_eq!(x.get_patch(), before);
}

#[test]
fn missing_changes_bring_a_peer_up_to_date() {
    let (make, inc_a, inc_b) = counter_changes();
    let mut x = Backend::init();
    x.apply_changes(vec![make.clone(), inc_a.clone()]).unwrap();
    let mut y = Backend::init();
    y.apply_changes(vec![make.clone(), inc_b]).unwrap();
    let missing = x.get_missing_changes(&y.clock());
    assert_eq!(missing, vec![inc_a.clone()]);
    y.apply_changes(missing).unwrap();
    x.merge(&y).unwrap();
    assert_eq!(x.get_patch(), y.get_patch());
    assert_eq!(x.get_missing_changes(&Clock { entries: vec![] }).len(), 3);
    assert_eq!(
        x.get_missing_changes(&Clock {
            entries: vec![
                ClockEntry { actor: actor("a"), seq: 1 },
                ClockEntry { actor: actor("b"), seq: 1 },
            ],
        }),
        vec![inc_a.clone()]
    );
    assert_eq!(x.get_changes_for_actor_id(&actor("a")), vec![make, inc_a]);
    assert!(x.get_changes_for_actor_id(&actor("nobody")).is_empty());
    assert_eq!(x.clock().get(&actor("a")), 2);
    assert_eq!(x.clock().get(&actor("b")), 1);
    assert_eq!(x.clock().get(&actor("c")), 0);
}

#[test]
fn errors_describe_themselves() {
    assert_eq!(AutomergeError::MissingObject.describe(), "missing object");
    assert_eq!(AutomergeError::MissingElement.describe(), "missing element");
    assert_eq!(AutomergeError::InvalidSequence.describe(), "invalid sequence number");
    assert_eq!(AutomergeError::InvalidChange.describe(), "invalid change");
    assert_eq!(AutomergeError::EncodingError.describe(), "malformed payload");
}
