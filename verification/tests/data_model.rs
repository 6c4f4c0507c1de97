use automerge_backend::{
    ActorID, DataType, ElementID, Key, ObjType, ObjectID, OpID, OpRequest, Rank, ReqOpType,
    RequestKey, Value,
};

fn opid(counter: u64, actor: &str) -> OpID {
    OpID(counter, actor.to_string())
}

#[test]
fn opid_new_takes_counter_and_actor() {
    let id = OpID::new(7, &ActorID("alice".to_string()));
    assert_eq!(id, OpID(7, "alice".to_string()));
    assert_eq!(id.counter(), 7);
}

#[test]
fn opid_order_is_counter_then_actor() {
    assert_eq!(opid(1, "b").rank(&opid(2, "a")), Rank::Before);
    assert_eq!(opid(2, "a").rank(&opid(1, "b")), Rank::After);
    assert_eq!(opid(2, "a").rank(&opid(2, "b")), Rank::Before);
    assert_eq!(opid(2, "b").rank(&opid(2, "a")), Rank::After);
    assert_eq!(opid(2, "ab").rank(&opid(2, "a")), Rank::After);
    assert_eq!(opid(2, "").rank(&opid(2, "a")), Rank::Before);
    assert_eq!(opid(3, "a").rank(&opid(3, "a")), Rank::Same);
}

#[test]
fn opid_order_agrees_with_string_order() {
    let names = ["", "a", "ab", "b", "z\u{e9}", "z\u{4e2d}", "\u{1f600}", "zz"];
    for x in names.iter() {
        for y in names.iter() {
            let expected = if x < y {
                Rank::Before
            } else if x == y {
                Rank::Same
            } else {
                Rank::After
            };
            assert_eq!(opid(1, x).rank(&opid(1, y)), expected);
        }
    }
}

#[test]
fn element_id_accessors() {
    let id = opid(3, "a");
    assert_eq!(ElementID::Head.as_opid(), None);
    assert_eq!(ElementID::ID(id.clone()).as_opid(), Some(&id));
    assert!(!ElementID::Head.not_head());
    assert!(ElementID::ID(id.clone()).not_head());
    assert_eq!(ElementID::ID(id.clone()).into_key(), Key::Elem(ElementID::ID(id)));
    assert_eq!(ElementID::Head.into_key(), Key::head());
}

#[test]
fn key_accessors() {
    let id = opid(3, "a");
    assert_eq!(Key::head(), Key::Elem(ElementID::Head));
    assert_eq!(Key::Prop("x".to_string()).as_element_id(), None);
    assert_eq!(Key::head().as_element_id(), Some(ElementID::Head));
    assert_eq!(
        Key::Elem(ElementID::ID(id.clone())).as_element_id(),
        Some(ElementID::ID(id.clone()))
    );
    assert_eq!(Key::Prop("x".to_string()).to_opid(), None);
    assert_eq!(Key::head().to_opid(), None);
    assert_eq!(Key::Elem(ElementID::ID(id.clone())).to_opid(), Some(id));
}

#[test]
fn datatype_is_undefined() {
    assert!(DataType::is_undefined(&DataType::Undefined));
    assert!(!DataType::is_undefined(&DataType::Counter));
    assert!(!DataType::is_undefined(&DataType::Timestamp));
}

#[test]
fn object_ids_compare() {
    assert!(ObjectID::Root.same(&ObjectID::Root));
    assert!(!ObjectID::Root.same(&ObjectID::ID(opid(1, "a"))));
    assert!(ObjectID::ID(opid(1, "a")).same(&ObjectID::ID(opid(1, "a"))));
    assert!(!ObjectID::ID(opid(1, "a")).same(&ObjectID::ID(opid(1, "b"))));
    assert!(ObjType::List.holds_sequence());
    assert!(ObjType::Text.holds_sequence());
    assert!(!ObjType::Dict.holds_sequence());
    assert!(!ObjType::Table.holds_sequence());
}

#[test]
fn value_to_i64_of_integers() {
    assert_eq!(Value::Int(-5).to_i64(), Some(-5));
    assert_eq!(Value::Uint(5).to_i64(), Some(5));
    assert_eq!(Value::Uint(u64::MAX).to_i64(), Some(-1));
    assert_eq!(Value::Uint(1 << 63).to_i64(), Some(i64::MIN));
    assert_eq!(Value::Counter(9).to_i64(), Some(9));
    assert_eq!(Value::Timestamp(10).to_i64(), Some(10));
    assert_eq!(Value::Str("1".to_string()).to_i64(), None);
    assert_eq!(Value::Boolean(true).to_i64(), None);
    assert_eq!(Value::Null.to_i64(), None);
}

#[test]
fn value_to_i64_of_doubles_is_the_cast() {
    let samples: [f64; 22] = [
        0.0,
        -0.0,
        0.5,
        -0.5,
        1.0,
        -1.0,
        3.0,
        3.99,
        -3.99,
        4.0e9,
        1.0e15,
        -1.0e15,
        9007199254740993.0,
        9.2e18,
        9.3e18,
        -9.3e18,
        1.0e300,
        -1.0e300,
        5.0e-324,
        f64::INFINITY,
        f64::NEG_INFINITY,
        f64::NAN,
    ];
    for x in samples.iter() {
        assert_eq!(Value::F64(x.to_bits()).to_i64(), Some(*x as i64));
    }
    assert_eq!(Value::F64(3.0f64.to_bits()).to_i64(), Some(3));
    assert_eq!(Value::F64((-2.75f64).to_bits()).to_i64(), Some(-2));
}

#[test]
fn value_to_i64_of_floats_is_the_cast() {
    let samples: [f32; 16] = [
        0.0,
        -0.0,
        0.5,
        1.0,
        -1.0,
        3.99,
        -3.99,
        16777216.0,
        4.0e9,
        9.3e18,
        -9.3e18,
        1.0e38,
        1.0e-45,
        f32::INFINITY,
        f32::NEG_INFINITY,
        f32::NAN,
    ];
    for x in samples.iter() {
        assert_eq!(Value::F32(x.to_bits()).to_i64(), Some(*x as i64));
    }
    assert_eq!(Value::F32(7.5f32.to_bits()).to_i64(), Some(7));
}

#[test]
fn value_from_reads_by_datatype() {
    assert_eq!(Value::from(Some(Value::Int(3)), Some(DataType::Counter)), Some(Value::Counter(3)));
    assert_eq!(
        Value::from(Some(Value::Uint(3)), Some(DataType::Timestamp)),
        Some(Value::Timestamp(3))
    );
    assert_eq!(Value::from(Some(Value::Str("x".to_string())), Some(DataType::Counter)), None);
    assert_eq!(Value::from(None, Some(DataType::Counter)), None);
    assert_eq!(Value::from(None, Some(DataType::Undefined)), None);
    assert_eq!(Value::from(None, None), None);
    assert_eq!(
        Value::from(Some(Value::Str("x".to_string())), Some(DataType::Undefined)),
        Some(Value::Str("x".to_string()))
    );
    assert_eq!(Value::from(Some(Value::Int(3)), None), Some(Value::Int(3)));
}

fn request(action: ReqOpType, value: Option<Value>, datatype: Option<DataType>) -> OpRequest {
    OpRequest {
        action,
        obj: "00000000-0000-0000-0000-000000000000".to_string(),
        key: RequestKey::Str("bird".to_string()),
        child: None,
        value,
        datatype,
        insert: false,
    }
}

#[test]
fn op_request_primitive_value() {
    let r = request(ReqOpType::Assign, Some(Value::Int(4)), Some(DataType::Counter));
    assert_eq!(r.primitive_value(), Value::Counter(4));
    let r = request(ReqOpType::Assign, Some(Value::Int(4)), Some(DataType::Timestamp));
    assert_eq!(r.primitive_value(), Value::Timestamp(4));
    let r = request(ReqOpType::Assign, Some(Value::Int(4)), Some(DataType::Undefined));
    assert_eq!(r.primitive_value(), Value::Int(4));
    let r = request(
        ReqOpType::Assign,
        Some(Value::Str("magpie".to_string())),
        Some(DataType::Counter),
    );
    assert_eq!(r.primitive_value(), Value::Str("magpie".to_string()));
    let r = request(ReqOpType::Del, None, Some(DataType::Counter));
    assert_eq!(r.primitive_value(), Value::Null);
    let r = request(ReqOpType::Assign, Some(Value::Boolean(true)), None);
    assert_eq!(r.primitive_value(), Value::Boolean(true));
}

#[test]
fn op_request_obj_type_and_to_i64() {
    assert_eq!(request(ReqOpType::MakeMap, None, None).obj_type(), Some(ObjType::Dict));
    assert_eq!(request(ReqOpType::MakeTable, None, None).obj_type(), Some(ObjType::Table));
    assert_eq!(request(ReqOpType::MakeList, None, None).obj_type(), Some(ObjType::List));
    assert_eq!(request(ReqOpType::MakeText, None, None).obj_type(), Some(ObjType::Text));
    assert_eq!(request(ReqOpType::Assign, None, None).obj_type(), None);
    assert_eq!(request(ReqOpType::Del, None, None).obj_type(), None);
    assert_eq!(request(ReqOpType::Inc, None, None).obj_type(), None);
    assert_eq!(request(ReqOpType::Link, None, None).obj_type(), None);
    assert_eq!(request(ReqOpType::Inc, Some(Value::Int(2)), None).to_i64(), Some(2));
    assert_eq!(request(ReqOpType::Inc, Some(Value::Null), None).to_i64(), None);
    assert_eq!(request(ReqOpType::Inc, None, None).to_i64(), None);
}
