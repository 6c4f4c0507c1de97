use automerge_backend::{
    AutomergeError, Conflict, DataType, Document, ElementID, Key, ObjType, ObjectID, OpID,
    OpType, Operation, Path, PatchValue, Value,
};

fn opid(counter: u64, actor: &str) -> OpID {
    OpID(counter, actor.to_string())
}

fn prop(name: &str) -> Key {
    Key::Prop(name.to_string())
}

fn op(action: OpType, object: ObjectID, key: Key) -> Operation {
    Operation {
        action,
        object,
        key,
        value: None,
        datatype: None,
        insert: false,
        predecessors: Vec::new(),
        child: None,
    }
}

fn assign(object: ObjectID, key: Key, value: Value, pred: Vec<OpID>) -> Operation {
    let mut o = op(OpType::Assign, object, key);
    o.value = Some(value);
    o.predecessors = pred;
    o
}

fn insert(object: ObjectID, after: ElementID, value: &str) -> Operation {
    let mut o = op(OpType::Assign, object, Key::Elem(after));
    o.value = Some(Value::Str(value.to_string()));
    o.insert = true;
    o
}

fn ids(d: &Document) -> Vec<OpID> {
    (0..d.len()).map(|i| d.get(i).id.clone()).collect()
}

#[test]
fn operations_are_kept_in_the_order_of_their_identifiers() {
    let mut d = Document::new();
    for (n, who) in [(3, "a"), (1, "b"), (2, "b"), (2, "a"), (1, "a")] {
        let key = format!("k{}{}", n, who);
        let path = d
            .apply_op(opid(n, who), assign(ObjectID::Root, prop(&key), Value::Int(1), vec![]))
            .unwrap();
        assert_eq!(path, Path { object: ObjectID::Root, key: prop(&key) });
    }
    assert_eq!(
        ids(&d),
        vec![opid(1, "a"), opid(1, "b"), opid(2, "a"), opid(2, "b"), opid(3, "a")]
    );
    assert_eq!(d.find(&opid(2, "a")), Some(2));
    assert_eq!(d.find(&opid(9, "a")), None);
    let copy = d.duplicate();
    assert_eq!(ids(&copy), ids(&d));
}

#[test]
fn an_identifier_is_used_once() {
    let mut d = Document::new();
    d.apply_op(opid(1, "a"), assign(ObjectID::Root, prop("x"), Value::Int(1), vec![])).unwrap();
    assert_eq!(
        d.apply_op(opid(1, "a"), assign(ObjectID::Root, prop("y"), Value::Int(2), vec![])),
        Err(AutomergeError::InvalidChange)
    );
    assert_eq!(d.len(), 1);
    assert_eq!(
        d.check(&opid(1, "a"), &assign(ObjectID::Root, prop("y"), Value::Int(2), vec![])),
        Some(AutomergeError::InvalidChange)
    );
    assert_eq!(
        d.check(&opid(2, "a"), &assign(ObjectID::Root, prop("y"), Value::Int(2), vec![])),
        None
    );
}

#[test]
fn containers_have_the_kind_they_were_made_with() {
    let mut d = Document::new();
    d.apply_op(opid(1, "a"), op(OpType::MakeMap, ObjectID::Root, prop("m"))).unwrap();
    d.apply_op(opid(2, "a"), op(OpType::MakeTable, ObjectID::Root, prop("t"))).unwrap();
    d.apply_op(opid(3, "a"), op(OpType::MakeList, ObjectID::Root, prop("l"))).unwrap();
    d.apply_op(opid(4, "a"), op(OpType::MakeText, ObjectID::Root, prop("x"))).unwrap();
    d.apply_op(opid(5, "a"), assign(ObjectID::Root, prop("s"), Value::Null, vec![])).unwrap();
    assert_eq!(d.object_type(&ObjectID::Root), Some(ObjType::Dict));
    assert_eq!(d.object_type(&ObjectID::ID(opid(1, "a"))), Some(ObjType::Dict));
    assert_eq!(d.object_type(&ObjectID::ID(opid(2, "a"))), Some(ObjType::Table));
    assert_eq!(d.object_type(&ObjectID::ID(opid(3, "a"))), Some(ObjType::List));
    assert_eq!(d.object_type(&ObjectID::ID(opid(4, "a"))), Some(ObjType::Text));
    assert_eq!(d.object_type(&ObjectID::ID(opid(5, "a"))), None);
    assert_eq!(d.object_type(&ObjectID::ID(opid(6, "a"))), None);
    d.apply_op(
        opid(6, "a"),
        assign(ObjectID::ID(opid(1, "a")), prop("inner"), Value::Boolean(true), vec![]),
    )
    .unwrap();
    assert_eq!(
        d.conflicts(&ObjectID::ID(opid(1, "a")), &prop("inner")),
        vec![Conflict { id: opid(6, "a"), value: PatchValue::Scalar(Value::Boolean(true)) }]
    );
    assert_eq!(
        d.conflicts(&ObjectID::Root, &prop("m")),
        vec![Conflict {
            id: opid(1, "a"),
            value: PatchValue::Object(ObjectID::ID(opid(1, "a")), ObjType::Dict),
        }]
    );
}

#[test]
fn a_write_takes_its_predecessors_out_of_the_conflict_set() {
    let mut d = Document::new();
    let root = ObjectID::Root;
    d.apply_op(opid(1, "a"), assign(root.clone(), prop("x"), Value::Int(1), vec![])).unwrap();
    d.apply_op(opid(1, "b"), assign(root.clone(), prop("x"), Value::Int(2), vec![])).unwrap();
    d.apply_op(opid(1, "c"), assign(root.clone(), prop("x"), Value::Int(3), vec![])).unwrap();
    assert_eq!(d.conflicts(&root, &prop("x")).len(), 3);
    d.apply_op(
        opid(2, "a"),
        assign(root.clone(), prop("x"), Value::Int(4), vec![opid(1, "a"), opid(1, "c")]),
    )
    .unwrap();
    assert_eq!(
        d.conflicts(&root, &prop("x")),
        vec![
            Conflict { id: opid(1, "b"), value: PatchValue::Scalar(Value::Int(2)) },
            Conflict { id: opid(2, "a"), value: PatchValue::Scalar(Value::Int(4)) },
        ]
    );
    assert!(d.is_overwritten(0));
    assert!(!d.is_overwritten(1));
    assert!(d.is_live(1));
    assert!(!d.is_live(2));
    assert!(d.is_occupied(&root, &prop("x")));
    assert!(!d.is_occupied(&root, &prop("y")));
    let mut del = op(OpType::Del, root.clone(), prop("x"));
    del.predecessors = vec![opid(1, "b"), opid(2, "a")];
    d.apply_op(opid(3, "a"), del).unwrap();
    assert!(d.conflicts(&root, &prop("x")).is_empty());
    assert!(!d.is_occupied(&root, &prop("x")));
    assert!(d.live_paths().is_empty());
}

#[test]
fn increments_count_on_counters_only_where_aimed() {
    let mut d = Document::new();
    let root = ObjectID::Root;
    let mut c = assign(root.clone(), prop("n"), Value::Uint(5), vec![]);
    c.datatype = Some(DataType::Counter);
    d.apply_op(opid(1, "a"), c).unwrap();
    let mut other = assign(root.clone(), prop("n"), Value::Int(100), vec![]);
    other.datatype = Some(DataType::Counter);
    d.apply_op(opid(1, "b"), other).unwrap();
    let mut inc = op(OpType::Inc, root.clone(), prop("n"));
    inc.value = Some(Value::Int(-2));
    inc.predecessors = vec![opid(1, "a"), opid(1, "a")];
    d.apply_op(opid(2, "a"), inc).unwrap();
    assert_eq!(
        d.conflicts(&root, &prop("n")),
        vec![
            Conflict { id: opid(1, "a"), value: PatchValue::Scalar(Value::Counter(3)) },
            Conflict { id: opid(1, "b"), value: PatchValue::Scalar(Value::Counter(100)) },
        ]
    );
    assert_eq!(d.value_at(0), PatchValue::Scalar(Value::Counter(3)));
}

#[test]
fn elements_follow_their_anchors_with_the_greater_identifier_first() {
    let mut d = Document::new();
    d.apply_op(opid(1, "a"), op(OpType::MakeList, ObjectID::Root, prop("l"))).unwrap();
    let list = ObjectID::ID(opid(1, "a"));
    d.apply_op(opid(2, "a"), insert(list.clone(), ElementID::Head, "a")).unwrap();
    d.apply_op(opid(5, "c"), insert(list.clone(), ElementID::ID(opid(2, "a")), "e")).unwrap();
    d.apply_op(opid(3, "b"), insert(list.clone(), ElementID::ID(opid(2, "a")), "c")).unwrap();
    d.apply_op(opid(3, "a"), insert(list.clone(), ElementID::ID(opid(2, "a")), "b")).unwrap();
    d.apply_op(opid(4, "a"), insert(list.clone(), ElementID::ID(opid(3, "a")), "d")).unwrap();
    d.apply_op(opid(6, "a"), insert(list.clone(), ElementID::Head, "f")).unwrap();
    assert_eq!(
        d.elements(&list),
        vec![opid(6, "a"), opid(2, "a"), opid(5, "c"), opid(3, "b"), opid(3, "a"), opid(4, "a")]
    );
    assert!(d.is_element(&list, &opid(3, "b")));
    assert!(!d.is_element(&list, &opid(1, "a")));
    assert!(!d.is_element(&ObjectID::Root, &opid(3, "b")));
    let mut del = op(OpType::Del, list.clone(), Key::Elem(ElementID::ID(opid(5, "c"))));
    del.predecessors = vec![opid(5, "c")];
    let path = d.apply_op(opid(7, "a"), del).unwrap();
    assert_eq!(path, Path { object: list.clone(), key: Key::Elem(ElementID::ID(opid(5, "c"))) });
    assert_eq!(d.elements(&list).len(), 6);
    assert_eq!(
        d.visible_elements(&list),
        vec![opid(6, "a"), opid(2, "a"), opid(3, "b"), opid(3, "a"), opid(4, "a")]
    );
    assert_eq!(
        d.apply_op(opid(8, "a"), insert(list.clone(), ElementID::ID(opid(9, "a")), "x")),
        Err(AutomergeError::MissingElement)
    );
    assert_eq!(
        d.apply_op(opid(2, "0"), insert(list.clone(), ElementID::ID(opid(2, "a")), "x")),
        Err(AutomergeError::InvalidChange)
    );
    let patch = d.diff(&vec![path.clone(), path]);
    assert_eq!(patch.props.len(), 1);
    assert!(patch.props[0].conflicts.is_empty());
    assert_eq!(patch.props[0].resolved, None);
    assert_eq!(patch.lists.len(), 1);
    assert_eq!(patch.lists[0].elements.len(), 5);
    let full = d.full_patch();
    assert_eq!(full.props.len(), 6);
    assert_eq!(full.lists.len(), 1);
}
