use circom2_compiler::algebra::error::Error;
use circom2_compiler::algebra::field::FS;
use circom2_compiler::algebra::lc::LC;
use circom2_compiler::algebra::qeq::QEQ;
use circom2_compiler::algebra::value::Value;
use circom2_compiler::storage::error::Error as StorageError;
use circom2_compiler::storage::ram::RamSignals;
use circom2_compiler::storage::types::{SignalType, Signals};

fn fs(n: u64) -> FS {
    FS::from_u64(n)
}

fn lc(terms: &[(usize, u64)]) -> LC {
    LC(terms.iter().map(|(id, c)| (*id, fs(*c))).collect())
}

fn terms_of(v: &Value) -> Vec<(usize, FS)> {
    match v {
        Value::LinearCombination(l) => l.0.clone(),
        other => panic!("{:?}", other),
    }
}

#[test]
fn canonize_sums_sorts_and_drops_zeros() {
    let minus_two = fs(2).neg();
    let l = LC(vec![(5, fs(1)), (2, fs(2)), (5, fs(3)), (9, fs(0)), (2, minus_two), (0, fs(7))]);
    assert!(!l.is_canonical());
    let c = l.canonize();
    assert_eq!(c.0, vec![(0, fs(7)), (5, fs(4))]);
    assert!(c.is_canonical());
    assert_eq!(c.canonize().0, c.0);
    assert_eq!(LC::new().canonize().0, vec![]);
    assert!(LC::new().is_canonical());
    assert!(!lc(&[(1, 1), (1, 1)]).is_canonical());
    assert!(!lc(&[(2, 1), (1, 1)]).is_canonical());
    assert!(!lc(&[(1, 0)]).is_canonical());
    let many = LC((0..100).rev().map(|id| (id % 10, fs(1))).collect());
    assert_eq!(many.canonize().0, (0..10).map(|id| (id, fs(10))).collect::<Vec<_>>());
}

#[test]
fn equal_combinations_in_any_order() {
    let a = lc(&[(3, 2), (1, 1), (3, 5)]);
    let b = lc(&[(1, 1), (3, 7), (8, 0)]);
    assert!(a.equals(&b));
    assert!(b.equals(&a));
    assert!(!a.equals(&lc(&[(1, 1), (3, 6)])));
    assert!(!a.equals(&lc(&[(1, 1)])));
    assert!(LC::new().equals(&lc(&[(4, 0)])));
    let qa = QEQ::new(a.clone(), LC::new(), b.clone());
    let qb = QEQ::new(b, lc(&[(0, 0)]), a);
    assert!(qa.equals(&qb));
    assert_eq!(qa.canonize().to_string(), qb.canonize().to_string());
}

#[test]
fn add_sub_neg_scale_of_combinations() {
    let a = lc(&[(1, 1), (2, 2)]);
    let b = lc(&[(2, 3), (3, 4)]);
    assert_eq!(a.add(&b).0, lc(&[(1, 1), (2, 5), (3, 4)]).0);
    assert_eq!(a.sub(&a).0, vec![]);
    assert_eq!(a.sub(&b).0, vec![(1, fs(1)), (2, fs(1).neg()), (3, fs(4).neg())]);
    assert_eq!(a.neg().0, vec![(1, fs(1).neg()), (2, fs(2).neg())]);
    assert_eq!(a.scale(&fs(3)).0, lc(&[(1, 3), (2, 6)]).0);
    assert_eq!(a.scale(&fs(0)).0, vec![]);
    assert_eq!(a.coefficient_of(2), fs(2));
    assert_eq!(a.coefficient_of(7), fs(0));
    assert_eq!(lc(&[(2, 2), (2, 5)]).coefficient_of(2), fs(7));
    assert_eq!(a.len(), 2);
}

#[test]
fn constants_are_combinations_on_one() {
    assert!(LC::new().is_constant());
    assert!(lc(&[(0, 5)]).is_constant());
    assert!(lc(&[(0, 5), (3, 0)]).is_constant());
    assert!(lc(&[(3, 1), (3, 2188824287183927522)]).canonize().0.len() == 1);
    assert!(!lc(&[(0, 5), (3, 1)]).is_constant());
    assert!(LC(vec![(3, fs(1)), (3, fs(1).neg())]).is_constant());
    assert_eq!(LC::from_constant(&fs(0)).0, vec![]);
    assert_eq!(LC::from_constant(&fs(4)).0, vec![(0, fs(4))]);
    assert_eq!(LC::from_signal(6).0, vec![(6, fs(1))]);
}

#[test]
fn product_of_two_non_constant_values_is_refused() {
    let x = Value::from_signal(1);
    let y = Value::from_signal(2);
    match x.mul(&y) {
        Err(Error::InvalidOperation(_)) => {}
        other => panic!("{:?}", other),
    }
    match x.mul(&x) {
        Err(Error::InvalidOperation(_)) => {}
        other => panic!("{:?}", other),
    }
    let sum = x.add(&Value::from_u64(3));
    match sum.mul(&y) {
        Err(Error::InvalidOperation(_)) => {}
        other => panic!("{:?}", other),
    }
    for unknown in [Value::Unknown.mul(&x), x.mul(&Value::Unknown), Value::Unknown.mul(&fs(2).into())]
    {
        match unknown {
            Err(Error::InvalidOperation(_)) => {}
            other => panic!("{:?}", other),
        }
    }
}

#[test]
fn product_with_a_constant_scales() {
    let l = Value::LinearCombination(lc(&[(0, 1), (4, 2), (9, 3)]));
    let three = Value::from_u64(3);
    let expected = lc(&[(0, 3), (4, 6), (9, 9)]).0;
    assert_eq!(terms_of(&three.mul(&l).unwrap()), expected);
    assert_eq!(terms_of(&l.mul(&three).unwrap()), expected);
    // a combination that is a constant counts as one
    let constant = Value::LinearCombination(lc(&[(0, 3), (5, 0)]));
    assert_eq!(terms_of(&constant.mul(&l).unwrap()), expected);
    assert_eq!(terms_of(&l.mul(&constant).unwrap()), expected);
    assert_eq!(terms_of(&Value::from_u64(0).mul(&l).unwrap()), vec![]);
    match Value::from_u64(6).mul(&Value::from_u64(7)).unwrap() {
        Value::FieldScalar(f) => assert_eq!(f, fs(42)),
        other => panic!("{:?}", other),
    }
}

#[test]
fn sums_of_values() {
    match Value::from_u64(2).add(&Value::from_u64(3)) {
        Value::FieldScalar(f) => assert_eq!(f, fs(5)),
        other => panic!("{:?}", other),
    }
    let x = Value::from_signal(1);
    assert_eq!(terms_of(&x.add(&Value::from_u64(3))), vec![(0, fs(3)), (1, fs(1))]);
    assert_eq!(terms_of(&x.sub(&x)), vec![]);
    assert_eq!(terms_of(&x.neg()), vec![(1, fs(1).neg())]);
    assert!(matches!(x.add(&Value::Unknown), Value::Unknown));
    assert!(matches!(Value::Unknown.neg(), Value::Unknown));
    assert_eq!(Value::from_u64(5).try_into_fs(), Some(fs(5)));
    assert_eq!(Value::LinearCombination(lc(&[(0, 5)])).try_into_fs(), Some(fs(5)));
    assert_eq!(Value::LinearCombination(LC::new()).try_into_fs(), Some(fs(0)));
    assert_eq!(x.try_into_fs(), None);
    assert_eq!(Value::Unknown.try_into_fs(), None);
}

#[test]
fn substitute_is_the_weighted_sum() {
    let mut signals = RamSignals::default();
    signals.insert("a".to_string(), SignalType::Internal, Some(Value::from_u64(7))).unwrap();
    signals.insert("b".to_string(), SignalType::Internal, Some(Value::from_u64(3))).unwrap();
    signals.insert("c".to_string(), SignalType::Internal, None).unwrap();
    signals
        .insert("d".to_string(), SignalType::Internal, Some(Value::from_signal(1)))
        .unwrap();
    assert_eq!(lc(&[(0, 5), (1, 2), (2, 10), (1, 1)]).substitute(&signals).unwrap(), fs(56));
    assert_eq!(LC::new().substitute(&signals).unwrap(), fs(0));
    let minus = LC(vec![(1, fs(1).neg()), (0, fs(7))]);
    assert_eq!(minus.substitute(&signals).unwrap(), fs(0));
    for missing in [lc(&[(1, 1), (3, 1)]), lc(&[(4, 1)]), lc(&[(5, 1)]), lc(&[(3, 0)])] {
        match missing.substitute(&signals) {
            Err(StorageError::NotFound(_)) => {}
            other => panic!("{:?}", other),
        }
    }
}

#[test]
fn linear_constraints_are_one_times_the_combination() {
    let q = QEQ::from_linear(&lc(&[(3, 2), (1, 1), (3, 5)]));
    assert_eq!(q.to_string(), "[1s0]*[1s1+7s3]+[ ]");
    assert_eq!(QEQ::from_linear(&LC::new()).to_string(), "[1s0]*[ ]+[ ]");
}
