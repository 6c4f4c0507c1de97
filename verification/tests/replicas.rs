use automerge_backend::{
    ActorID, Backend, Change, ChangeHash, DataType, ElementID, Key, ObjectID, OpID, OpType,
    Operation, Patch, Value,
};

struct Dice(u64);

impl Dice {
    fn roll(&mut self, sides: u64) -> u64 {
        self.0 = self.0.wrapping_mul(6364136223846793005).wrapping_add(1442695040888963407);
        (self.0 >> 33) % sides
    }
}

struct Writer {
    name: String,
    backend: Backend,
    seq: u64,
    max_op: u64,
}

fn blank(action: OpType, object: ObjectID, key: Key) -> Operation {
    Operation {
        action,
        object,
        key,
        value: None,
        datatype: None,
        insert: false,
        predecessors: Vec::new(),
        child: None,
    }
}

fn standing_writers(patch: &Patch, object: &ObjectID, key: &Key) -> Vec<OpID> {
    patch
        .props
        .iter()
        .filter(|p| &p.object == object && &p.key == key)
        .flat_map(|p| p.conflicts.iter().map(|c| c.id.clone()))
        .collect()
}

fn highest_counter(changes: &[Change]) -> u64 {
    changes
        .iter()
        .map(|c| c.start_op + c.operations.len() as u64)
        .max()
        .unwrap_or(1)
        .saturating_sub(1)
}

fn author(w: &mut Writer, dice: &mut Dice, next_hash: &mut u128, list: &ObjectID) -> Change {
    let patch = w.backend.get_patch();
    let known = w.backend.get_changes();
    let start_op = highest_counter(&known).max(w.max_op) + 1;
    let mut ops = Vec::new();
    let count = 1 + dice.roll(3);
    for k in 0..count {
        let own = OpID(start_op + k, w.name.clone());
        let visible: Vec<OpID> =
            patch.lists.iter().filter(|l| &l.object == list).flat_map(|l| l.elements.clone()).collect();
        match dice.roll(5) {
            0 => {
                let key = Key::Prop(format!("k{}", dice.roll(3)));
                let mut o = blank(OpType::Assign, ObjectID::Root, key.clone());
                o.value = Some(Value::Str(format!("{}", own.0)));
                o.predecessors = standing_writers(&patch, &ObjectID::Root, &key);
                ops.push(o);
            }
            1 => {
                let key = Key::Prop("n".to_string());
                let mut o = blank(OpType::Inc, ObjectID::Root, key.clone());
                o.value = Some(Value::Int(1 + dice.roll(4) as i64));
                o.predecessors = standing_writers(&patch, &ObjectID::Root, &key);
                ops.push(o);
            }
            2 if !visible.is_empty() => {
                let e = visible[dice.roll(visible.len() as u64) as usize].clone();
                let key = Key::Elem(ElementID::ID(e.clone()));
                let mut o = blank(OpType::Del, list.clone(), key);
                o.predecessors = vec![e];
                ops.push(o);
            }
            _ => {
                let after = if visible.is_empty() || dice.roll(3) == 0 {
                    ElementID::Head
                } else {
                    ElementID::ID(visible[dice.roll(visible.len() as u64) as usize].clone())
                };
                let mut o = blank(OpType::Assign, list.clone(), Key::Elem(after));
                o.insert = true;
                o.value = Some(Value::Uint(own.0));
                ops.push(o);
            }
        }
    }
    w.seq += 1;
    w.max_op = start_op + count - 1;
    *next_hash += 1;
    Change {
        hash: ChangeHash(7, *next_hash),
        actor: ActorID(w.name.clone()),
        seq: w.seq,
        start_op,
        timestamp: *next_hash as i64,
        message: None,
        dependencies: known.iter().map(|c| c.hash).collect(),
        operations: ops,
    }
}

fn first_change() -> (Change, ObjectID) {
    let mut counter = blank(OpType::Assign, ObjectID::Root, Key::Prop("n".to_string()));
    counter.value = Some(Value::Int(0));
    counter.datatype = Some(DataType::Counter);
    let change = Change {
        hash: ChangeHash(7, 0),
        actor: ActorID("origin".to_string()),
        seq: 1,
        start_op: 1,
        timestamp: 0,
        message: Some("start".to_string()),
        dependencies: Vec::new(),
        operations: vec![
            blank(OpType::MakeList, ObjectID::Root, Key::Prop("list".to_string())),
            counter,
        ],
    };
    (change, ObjectID::ID(OpID(1, "origin".to_string())))
}

fn run(seed: u64) {
    let mut dice = Dice(seed);
    let (first, list) = first_change();
    let mut writers: Vec<Writer> = ["ann", "bob", "cy"]
        .iter()
        .map(|name| {
            let mut backend = Backend::init();
            backend.apply_changes(vec![first.clone()]).unwrap();
            Writer { name: name.to_string(), backend, seq: 0, max_op: 2 }
        })
        .collect();
    let mut all = vec![first.clone()];
    let mut next_hash = 0u128;
    for _ in 0..40 {
        let who = dice.roll(3) as usize;
        if dice.roll(4) == 0 {
            let from = dice.roll(3) as usize;
            if from != who {
                let clock = writers[who].backend.clock();
                let missing = writers[from].backend.get_missing_changes(&clock);
                writers[who].backend.apply_changes(missing).unwrap();
            }
        } else {
            let change = author(&mut writers[who], &mut dice, &mut next_hash, &list);
            writers[who].backend.apply_local_change(change.clone()).unwrap();
            all.push(change);
        }
    }
    let mut in_order = Backend::init();
    in_order.apply_changes(all.clone()).unwrap();
    let mut reversed = Backend::init();
    let mut backwards = all.clone();
    backwards.reverse();
    for c in backwards {
        reversed.apply_changes(vec![c]).unwrap();
    }
    let mut shuffled = Backend::init();
    let mut pool = all.clone();
    while !pool.is_empty() {
        let at = dice.roll(pool.len() as u64) as usize;
        let c = pool.swap_remove(at);
        shuffled.apply_changes(vec![c.clone(), c]).unwrap();
    }
    let expected = in_order.get_patch();
    assert_eq!(reversed.get_patch(), expected);
    assert_eq!(shuffled.get_patch(), expected);
    assert_eq!(reversed.get_changes().len(), all.len());
    assert_eq!(shuffled.get_changes().len(), all.len());
    assert!(reversed.get_missing_deps().entries.is_empty());
    let mut merged = Backend::init();
    for w in writers.iter() {
        merged.merge(&w.backend).unwrap();
    }
    assert_eq!(merged.get_patch(), expected);
    for i in 0..writers.len() {
        let other = merged.duplicate();
        writers[i].backend.merge(&other).unwrap();
        assert_eq!(writers[i].backend.get_patch(), expected);
    }
    let increments: i64 = all
        .iter()
        .flat_map(|c| c.operations.iter())
        .filter(|o| o.action == OpType::Inc)
        .map(|o| o.value.as_ref().and_then(|v| v.to_i64()).unwrap())
        .sum();
    let counter = expected
        .props
        .iter()
        .find(|p| p.key == Key::Prop("n".to_string()))
        .map(|p| p.conflicts.clone())
        .unwrap();
    assert_eq!(counter.len(), 1);
    assert_eq!(
        counter[0].value,
        automerge_backend::PatchValue::Scalar(Value::Counter(increments))
    );
}

#[test]
fn replicas_converge_whatever_the_order_of_delivery() {
    for seed in 1..=12 {
        run(seed);
    }
}
