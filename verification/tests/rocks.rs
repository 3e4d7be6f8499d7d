use circom2_compiler::algebra::field::FS;
use circom2_compiler::algebra::qeq::QEQ;
use circom2_compiler::algebra::value::Value;
use circom2_compiler::storage::error::Error;
use circom2_compiler::storage::rocks::{
    constraint_push, constraint_read, counter_key, entry_key, name_key, number_of, progress_due,
    signal_insert, signal_read, signal_seed, signal_update, Rocks, Write,
};
use circom2_compiler::evaluator::ast::{Circuit, Expression, Statement, Target, Template};
use circom2_compiler::evaluator::check::check_constraints_eval_zero;
use circom2_compiler::evaluator::eval::Evaluator;
use circom2_compiler::evaluator::semantics::Mode;
use circom2_compiler::storage::types::{
    ConstraintList, Constraints, Signal, SignalTable, SignalType, Signals,
};
use std::collections::HashMap;

/// A store in memory, in the place of the database.
struct Store(HashMap<Vec<u8>, Vec<u8>>);

impl Store {
    fn new() -> Store {
        Store(HashMap::new())
    }
    fn get(&self, key: &[u8]) -> Option<Vec<u8>> {
        self.0.get(key).cloned()
    }
    fn put(&mut self, writes: Vec<Write>) {
        for w in writes {
            self.0.insert(w.key, w.value);
        }
    }
    fn len(&self) -> usize {
        number_of(&self.get(&counter_key())).unwrap() as usize
    }
    fn insert(
        &mut self,
        name: &str,
        xtype: SignalType,
        value: Option<Value>,
    ) -> Result<usize, Error> {
        let counter = self.get(&counter_key());
        let taken = self.get(&name_key(name));
        let (id, writes) = signal_insert(&counter, &taken, name.to_string(), xtype, value)?;
        self.put(writes);
        Ok(id)
    }
    fn update(&mut self, id: usize, value: Value) -> Result<(), Error> {
        let write = signal_update(&self.get(&entry_key(id as u64)), id, value)?;
        self.put(vec![write]);
        Ok(())
    }
    fn get_by_id(&self, id: usize) -> Result<Option<Signal>, Error> {
        signal_read(&self.get(&entry_key(id as u64)))
    }
    fn get_by_name(&self, name: &str) -> Result<Option<Signal>, Error> {
        match self.get(&name_key(name)) {
            None => Ok(None),
            found => self.get_by_id(number_of(&found)? as usize),
        }
    }
    fn push(&mut self, q: &QEQ) -> Result<usize, Error> {
        let (index, writes) = constraint_push(&self.get(&counter_key()), q)?;
        self.put(writes);
        Ok(index)
    }
    fn constraint(&self, i: usize) -> Result<QEQ, Error> {
        constraint_read(&self.get(&entry_key(i as u64)))
    }
}

/// The signal table on the store.
struct StoredSignals(Store);

impl Signals for StoredSignals {
    fn inv(&self) -> bool {
        true
    }
    fn table(&self) -> SignalTable {
        unreachable!("what the store holds is known by reading it")
    }
    fn infallible(&self) -> bool {
        false
    }
    fn lemma_table(&self) {}
    fn len(&self) -> Result<usize, Error> {
        Ok(self.0.len())
    }
    fn get_by_id(&self, id: usize) -> Result<Option<Signal>, Error> {
        self.0.get_by_id(id)
    }
    fn get_by_name(&self, full_name: &str) -> Result<Option<Signal>, Error> {
        self.0.get_by_name(full_name)
    }
    fn to_string(&self, id: usize) -> Result<String, Error> {
        match self.0.get_by_id(id)? {
            Some(s) => Ok(s.to_string()),
            None => Err(Error::NotFound(format!("signal {}", id))),
        }
    }
    fn update(&mut self, id: usize, value: Value) -> Result<(), Error> {
        self.0.update(id, value)
    }
    fn insert(
        &mut self,
        full_name: String,
        xtype: SignalType,
        value: Option<Value>,
    ) -> Result<usize, Error> {
        self.0.insert(&full_name, xtype, value)
    }
}

/// The constraint table on the store.
struct StoredConstraints(Store);

impl Constraints for StoredConstraints {
    fn inv(&self) -> bool {
        true
    }
    fn list(&self) -> ConstraintList {
        unreachable!("what the store holds is known by reading it")
    }
    fn infallible(&self) -> bool {
        false
    }
    fn len(&self) -> Result<usize, Error> {
        Ok(self.0.len())
    }
    fn get(&self, i: usize) -> Result<QEQ, Error> {
        self.0.constraint(i)
    }
    fn push(&mut self, qeq: QEQ) -> Result<usize, Error> {
        self.0.push(&qeq)
    }
}

fn stored(mode: Mode) -> Evaluator<StoredSignals, StoredConstraints> {
    let mut signals = StoredSignals(Store::new());
    let seed = signal_seed(&signals.0.get(&counter_key())).unwrap();
    signals.0.put(seed.expect("a fresh store takes the signal one"));
    Evaluator::new(mode, signals, StoredConstraints(Store::new()))
}

#[test]
fn evaluator_on_the_persistent_layout() {
    let var = |name: &str| Expression::Variable(name.to_string());
    let signal = |name: &str, xtype| Statement::Signal { name: name.to_string(), xtype };
    let circuit = Circuit {
        templates: vec![Template {
            name: "t".to_string(),
            parameters: vec![],
            body: vec![
                signal("a", SignalType::PrivateInput),
                signal("b", SignalType::PrivateInput),
                signal("c", SignalType::Output),
                Statement::ConstrainedAssign {
                    target: Target::Signal("c".to_string()),
                    value: Expression::Mul(Box::new(var("a")), Box::new(var("b"))),
                },
            ],
        }],
        main: "t".to_string(),
    };
    let mut r1cs = stored(Mode::GenConstraints);
    r1cs.eval(&circuit).unwrap();
    assert_eq!(r1cs.constraints.len().unwrap(), 1);
    assert_eq!(
        r1cs.constraints.get(0).unwrap().to_string(),
        "[1s1]*[1s2]+[21888242871839275222246405745257275088548364400416034343698204186575808495616s3]"
    );

    let mut witness = stored(Mode::GenWitness);
    witness.set_deferred_value("main.a".to_string(), Value::from_u64(7));
    witness.set_deferred_value("main.b".to_string(), Value::from_u64(3));
    witness.eval(&circuit).unwrap();
    assert_eq!(witness.signals.to_string(3).unwrap(), "main.c:Output:Some(21)");
    check_constraints_eval_zero(&r1cs.constraints, &witness.signals).unwrap();
    witness.signals.update(3, Value::from_u64(22)).unwrap();
    assert!(check_constraints_eval_zero(&r1cs.constraints, &witness.signals).is_err());
}

fn shown(v: &Option<Value>) -> String {
    match v {
        Some(v) => format!("Some({})", v.to_string()),
        None => "None".to_string(),
    }
}

#[test]
fn test_rocks_signals() {
    let one = FS::one();
    let two = one.add(&one);
    let three = one.add(&two);

    let mut signals = Store::new();
    assert_eq!(0, signals.len());

    signals.insert("s1", SignalType::Internal, Some(Value::from_fs(one))).unwrap();
    signals.insert("s2", SignalType::Internal, Some(Value::from_fs(two))).unwrap();
    signals.insert("s3", SignalType::Internal, None).unwrap();
    assert_eq!(3, signals.len());

    let s1 = signals.get_by_name("s1").unwrap().unwrap();
    assert_eq!("Some(1)", shown(&s1.value));

    let s2 = signals.get_by_name("s2").unwrap().unwrap();
    assert_eq!("Some(2)", shown(&s2.value));

    let s3 = signals.get_by_name("s3").unwrap().unwrap();
    assert_eq!("s3", s3.full_name.to_string());
    assert_eq!(true, s3.value.is_none());

    signals.update(s3.id, Value::from_fs(three)).unwrap();
    assert_eq!(3, signals.len());

    let s3 = signals.get_by_name("s3").unwrap().unwrap();
    assert_eq!("Some(3)", shown(&s3.value));
}

#[test]
fn test_rocks_constraints() {
    let one = QEQ::from_constant(&FS::one());
    let two = QEQ::from_constant(&FS::one().add(&FS::one()));

    let mut constraints = Store::new();
    assert_eq!(0, constraints.len());

    let c1 = constraints.push(&one).unwrap();
    let c2 = constraints.push(&two).unwrap();

    assert_eq!(2, constraints.len());
    assert_eq!("[ ]*[ ]+[1s0]", constraints.constraint(c1).unwrap().to_string());
    assert_eq!("[ ]*[ ]+[2s0]", constraints.constraint(c2).unwrap().to_string());
}

#[test]
fn layout_of_the_keys() {
    assert_eq!(counter_key(), vec![0]);
    assert_eq!(entry_key(258), vec![1, 0, 0, 0, 0, 0, 0, 1, 2]);
    assert_eq!(name_key("main.a"), vec![2, b'm', b'a', b'i', b'n', b'.', b'a']);
    assert_eq!(name_key(""), vec![2]);
}

#[test]
fn insertion_writes_counter_entry_and_name() {
    let mut store = Store::new();
    store.insert("a", SignalType::Internal, None).unwrap();
    let counter = store.get(&counter_key());
    let (id, writes) =
        signal_insert(&counter, &None, "main.b".to_string(), SignalType::Output, None).unwrap();
    assert_eq!(id, 1);
    assert_eq!(writes.len(), 3);
    assert_eq!(writes[0].key, vec![0]);
    assert_eq!(writes[0].value, vec![0, 0, 0, 0, 0, 0, 0, 2]);
    assert_eq!(writes[1].key, vec![1, 0, 0, 0, 0, 0, 0, 0, 1]);
    assert_eq!(
        writes[1].value,
        vec![0x84, 0x01, 0x02, 0x66, b'm', b'a', b'i', b'n', b'.', b'b', 0xf6]
    );
    assert_eq!(writes[2].key, name_key("main.b"));
    assert_eq!(writes[2].value, vec![0, 0, 0, 0, 0, 0, 0, 1]);
}

#[test]
fn identifiers_follow_the_counter() {
    let mut store = Store::new();
    for n in 0..40usize {
        let name = format!("main.s{}", n);
        let id = store.insert(&name, SignalType::Internal, Some(Value::from_u64(n as u64))).unwrap();
        assert_eq!(id, n);
        let by_id = store.get_by_id(id).unwrap().unwrap();
        let by_name = store.get_by_name(&name).unwrap().unwrap();
        assert_eq!((by_id.id, by_name.id), (n, n));
        assert_eq!(by_id.full_name, name);
        assert_eq!(by_name.full_name, name);
        assert_eq!(shown(&by_id.value), shown(&by_name.value));
    }
    assert!(store.get_by_id(40).unwrap().is_none());
    assert!(store.get_by_name("main.s40").unwrap().is_none());
}

#[test]
fn refusals_of_the_layout() {
    let mut store = Store::new();
    store.insert("a", SignalType::Internal, None).unwrap();
    match store.insert("a", SignalType::Internal, None) {
        Err(Error::AlreadyExists(name)) => assert_eq!(name, "a"),
        other => panic!("{:?}", other),
    }
    assert_eq!(store.len(), 1);
    match store.update(1, Value::from_u64(1)) {
        Err(Error::NotFound(_)) => {}
        other => panic!("{:?}", other),
    }
    match store.constraint(0).map(|_| ()) {
        Err(Error::Encoding(_)) => {}
        other => panic!("{:?}", other),
    }
    match store.constraint(7).map(|_| ()) {
        Err(Error::NotFound(_)) => {}
        other => panic!("{:?}", other),
    }
    match number_of(&Some(vec![1, 2, 3])) {
        Err(Error::Encoding(_)) => {}
        other => panic!("{:?}", other),
    }
    match signal_insert(
        &Some(vec![0xff; 8]),
        &None,
        "b".to_string(),
        SignalType::Internal,
        None,
    )
    .map(|_| ())
    {
        Err(Error::Encoding(_)) => {}
        other => panic!("{:?}", other),
    }
    match signal_read(&Some(vec![0x80])).map(|_| ()) {
        Err(Error::Encoding(_)) => {}
        other => panic!("{:?}", other),
    }
}

#[test]
fn progress_every_hundred_thousand() {
    assert!(progress_due(0));
    assert!(progress_due(100_000));
    assert!(progress_due(300_000));
    assert!(!progress_due(1));
    assert!(!progress_due(99_999));
}

#[test]
fn store_paths_are_numbered() {
    let mut rocks = Rocks::new("/tmp/run".to_string());
    assert_eq!(rocks.new_signals_path().unwrap(), "/tmp/run/_signals_0");
    assert_eq!(rocks.new_constraints_path().unwrap(), "/tmp/run/_constraints_1");
    assert_eq!(rocks.new_signals_path().unwrap(), "/tmp/run/_signals_2");
    let mut rocks = Rocks::new("/tmp/run/".to_string());
    assert_eq!(rocks.new_constraints_path().unwrap(), "/tmp/run/_constraints_0");
    let mut rocks = Rocks::new(String::new());
    assert_eq!(rocks.new_signals_path().unwrap(), "_signals_0");
}

#[test]
fn a_fresh_store_is_seeded_with_one() {
    let mut store = Store::new();
    let writes = signal_seed(&store.get(&counter_key())).unwrap().unwrap();
    assert_eq!(writes.len(), 3);
    assert_eq!(writes[0].key, vec![0]);
    assert_eq!(writes[0].value, vec![0, 0, 0, 0, 0, 0, 0, 1]);
    assert_eq!(writes[1].key, vec![1, 0, 0, 0, 0, 0, 0, 0, 0]);
    let mut record = vec![0x84u8, 0x00, 0x03, 0x63, b'o', b'n', b'e', 0x58, 0x20];
    record.extend_from_slice(&[0u8; 31]);
    record.push(1);
    assert_eq!(writes[1].value, record);
    assert_eq!(writes[2].key, vec![2, b'o', b'n', b'e']);
    assert_eq!(writes[2].value, vec![0, 0, 0, 0, 0, 0, 0, 0]);
    store.put(writes);

    assert_eq!(store.len(), 1);
    let one = store.get_by_id(0).unwrap().unwrap();
    assert_eq!((one.id, one.full_name.as_str(), one.xtype), (0, "one", SignalType::PublicInput));
    assert_eq!("Some(1)", shown(&one.value));
    assert_eq!(store.get_by_name("one").unwrap().unwrap().id, 0);

    // a store that holds signals takes nothing more
    assert!(signal_seed(&store.get(&counter_key())).unwrap().is_none());
    store.insert("a", SignalType::Internal, None).unwrap();
    assert!(signal_seed(&store.get(&counter_key())).unwrap().is_none());
    assert_eq!(store.len(), 2);

    // a counter that is no number
    match signal_seed(&Some(vec![1, 2, 3])).map(|_| ()) {
        Err(Error::Encoding(_)) => {}
        other => panic!("{:?}", other),
    }
}
