use circom2_compiler::algebra::field::FS;
use circom2_compiler::algebra::qeq::QEQ;
use circom2_compiler::algebra::value::Value;
use circom2_compiler::storage::error::Error;
use circom2_compiler::storage::ram::{Ram, RamConstraints, RamSignals};
use circom2_compiler::storage::rocks::{le_to_u64, u64_from_slice, u64_to_le, Rocks};
use circom2_compiler::storage::types::{Constraints, SignalType, Signals, StorageFactory};

fn scalar(v: &Option<Value>) -> Option<FS> {
    match v {
        Some(Value::FieldScalar(f)) => Some(*f),
        _ => None,
    }
}

#[test]
fn ram_signals_insert_and_update() {
    let one = FS::one();
    let two = one.add(&one);
    let three = one.add(&two);

    let mut ram = Ram::default();
    let mut signals = ram.new_signals().unwrap();
    assert_eq!(1, signals.len().unwrap());

    signals.insert("s1".to_string(), SignalType::Internal, Some(Value::from_fs(one))).unwrap();
    signals.insert("s2".to_string(), SignalType::Internal, Some(Value::from_fs(two))).unwrap();
    signals.insert("s3".to_string(), SignalType::Internal, None).unwrap();
    assert_eq!(4, signals.len().unwrap());

    let s1 = signals.get_by_name("s1").unwrap().unwrap();
    assert_eq!(scalar(&s1.value), Some(FS::from_u64(1)));
    let s2 = signals.get_by_name("s2").unwrap().unwrap();
    assert_eq!(scalar(&s2.value), Some(FS::from_u64(2)));
    let s3 = signals.get_by_name("s3").unwrap().unwrap();
    assert_eq!("s3", s3.full_name);
    assert!(s3.value.is_none());

    signals.update(s3.id, Value::from_fs(three)).unwrap();
    assert_eq!(4, signals.len().unwrap());
    let s3 = signals.get_by_name("s3").unwrap().unwrap();
    assert_eq!(scalar(&s3.value), Some(FS::from_u64(3)));
}

#[test]
fn ram_signals_start_with_one() {
    let signals = RamSignals::default();
    let one = signals.get_by_id(0).unwrap().unwrap();
    assert_eq!(one.id, 0);
    assert_eq!(one.full_name, "one");
    assert_eq!(one.xtype, SignalType::PublicInput);
    assert_eq!(scalar(&one.value), Some(FS::one()));
    assert_eq!(signals.get_by_name("one").unwrap().unwrap().id, 0);
    assert!(signals.get_by_id(1).unwrap().is_none());
    assert!(signals.get_by_name("two").unwrap().is_none());
}

#[test]
fn ram_signals_identifiers_count_the_inserts() {
    let mut signals = RamSignals::default();
    for n in 1..50usize {
        let name = format!("main.s{}", n);
        let id = signals.insert(name.clone(), SignalType::Internal, None).unwrap();
        assert_eq!(id, n);
        let by_id = signals.get_by_id(id).unwrap().unwrap();
        let by_name = signals.get_by_name(&name).unwrap().unwrap();
        assert_eq!(by_id.id, n);
        assert_eq!(by_name.id, n);
        assert_eq!(by_id.full_name, name);
        assert_eq!(by_name.full_name, name);
    }
}

#[test]
fn ram_signals_refuse_a_name_twice() {
    let mut signals = RamSignals::default();
    signals.insert("a".to_string(), SignalType::Internal, None).unwrap();
    match signals.insert("a".to_string(), SignalType::Output, None) {
        Err(Error::AlreadyExists(name)) => assert_eq!(name, "a"),
        other => panic!("{:?}", other),
    }
    assert_eq!(signals.len().unwrap(), 2);
    assert_eq!(signals.get_by_name("a").unwrap().unwrap().xtype, SignalType::Internal);
}

#[test]
fn ram_signals_update_of_unknown_identifier() {
    let mut signals = RamSignals::default();
    match signals.update(1, Value::from_u64(1)) {
        Err(Error::NotFound(_)) => {}
        other => panic!("{:?}", other),
    }
}

#[test]
fn ram_constraints_push_and_get() {
    let one = QEQ::from_constant(&FS::one());
    let two = QEQ::from_constant(&FS::one().add(&FS::one()));

    let mut ram = Ram::default();
    let mut constraints = ram.new_constraints().unwrap();
    assert_eq!(0, constraints.len().unwrap());

    let c1 = constraints.push(one).unwrap();
    let c2 = constraints.push(two).unwrap();
    assert_eq!((c1, c2), (0, 1));
    assert_eq!(2, constraints.len().unwrap());

    let q1 = constraints.get(c1).unwrap();
    assert!(q1.a.0.is_empty() && q1.b.0.is_empty());
    assert_eq!(q1.c.0, vec![(0, FS::from_u64(1))]);
    let q2 = constraints.get(c2).unwrap();
    assert!(q2.a.0.is_empty() && q2.b.0.is_empty());
    assert_eq!(q2.c.0, vec![(0, FS::from_u64(2))]);

    let empty = RamConstraints::default();
    match empty.get(0) {
        Err(Error::NotFound(_)) => {}
        other => panic!("{:?}", other.map(|_| ())),
    }
    match constraints.get(2) {
        Err(Error::NotFound(_)) => {}
        other => panic!("{:?}", other.map(|_| ())),
    }
}

#[test]
fn index_bytes_are_big_endian() {
    assert_eq!(u64_to_le(1), [0, 0, 0, 0, 0, 0, 0, 1]);
    assert_eq!(u64_to_le(0x0102030405060708), [1, 2, 3, 4, 5, 6, 7, 8]);
    assert_eq!(le_to_u64([1, 2, 3, 4, 5, 6, 7, 8]), 0x0102030405060708);
    assert_eq!(le_to_u64([0xff; 8]), u64::MAX);
    assert_eq!(u64_from_slice(&[0, 0, 0, 0, 0, 0, 1, 0]), 256);
    for v in [0u64, 1, 255, 256, 100_000, u64::MAX] {
        assert_eq!(le_to_u64(u64_to_le(v)), v);
    }
    let _ = Rocks::new("/tmp/tables".to_string());
}
