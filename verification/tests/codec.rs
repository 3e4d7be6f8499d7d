use circom2_compiler::algebra::field::FS;
use circom2_compiler::algebra::lc::LC;
use circom2_compiler::algebra::qeq::QEQ;
use circom2_compiler::algebra::value::Value;
use circom2_compiler::storage::codec::{decode_qeq, decode_signal, encode_qeq, encode_signal};
use circom2_compiler::storage::error::Error;
use circom2_compiler::storage::types::{Signal, SignalType};
use std::collections::BTreeMap;

fn signal(id: usize, xtype: SignalType, name: &str, value: Option<Value>) -> Signal {
    Signal { id, xtype, full_name: name.to_string(), value }
}

fn same_value(a: &Option<Value>, b: &Option<Value>) -> bool {
    match (a, b) {
        (None, None) => true,
        (Some(Value::Unknown), Some(Value::Unknown)) => true,
        (Some(Value::FieldScalar(x)), Some(Value::FieldScalar(y))) => x == y,
        (Some(Value::LinearCombination(x)), Some(Value::LinearCombination(y))) => x.0 == y.0,
        _ => false,
    }
}

fn round_trip(s: &Signal) {
    let bytes = encode_signal(s);
    let back = decode_signal(&bytes).unwrap();
    assert_eq!(back.id, s.id);
    assert_eq!(back.xtype, s.xtype);
    assert_eq!(back.full_name, s.full_name);
    assert!(same_value(&back.value, &s.value));
}

#[test]
fn signal_record_exact_bytes() {
    let s = signal(1, SignalType::Internal, "s1", Some(Value::from_u64(1)));
    let mut expected = vec![0x84u8, 0x01, 0x00, 0x62, b's', b'1', 0x58, 0x20];
    expected.extend_from_slice(&[0u8; 31]);
    expected.push(1);
    assert_eq!(encode_signal(&s), expected);

    let s = signal(300, SignalType::Component, "main", None);
    assert_eq!(
        encode_signal(&s),
        vec![0x84, 0x19, 0x01, 0x2c, 0x05, 0x64, b'm', b'a', b'i', b'n', 0xf6]
    );
    let s = signal(70000, SignalType::Output, "", Some(Value::Unknown));
    assert_eq!(encode_signal(&s), vec![0x84, 0x1a, 0x00, 0x01, 0x11, 0x70, 0x02, 0x60, 0xf7]);
}

#[test]
fn signal_records_read_back() {
    let types = [
        SignalType::Internal,
        SignalType::Input,
        SignalType::Output,
        SignalType::PublicInput,
        SignalType::PrivateInput,
        SignalType::Component,
    ];
    let minus_one = FS::one().neg();
    let values = || {
        vec![
            None,
            Some(Value::Unknown),
            Some(Value::from_u64(0)),
            Some(Value::from_fs(minus_one)),
            Some(Value::LinearCombination(LC(vec![]))),
            Some(Value::LinearCombination(LC(vec![
                (0, FS::from_u64(5)),
                (7, minus_one),
                (7, FS::zero()),
                (usize::MAX, FS::one()),
            ]))),
        ]
    };
    let ids = [0usize, 23, 24, 255, 256, 65535, 65536, 1 << 32, usize::MAX];
    let long_name = "x".repeat(300);
    for (k, id) in ids.iter().enumerate() {
        for value in values() {
            for name in ["", "main.a", "main.sub.c", "señal.ñ", long_name.as_str()] {
                round_trip(&signal(*id, types[k % types.len()], name, value.clone()));
            }
        }
    }
}

#[test]
fn qeq_record_reads_back() {
    let q = QEQ::new(
        LC(vec![(2, FS::one())]),
        LC(vec![(3, FS::one())]),
        LC(vec![(4, FS::one().neg())]),
    );
    let bytes = encode_qeq(&q);
    assert_eq!(bytes[0], 0x83);
    let back = decode_qeq(&bytes).unwrap();
    assert_eq!(back.a.0, q.a.0);
    assert_eq!(back.b.0, q.b.0);
    assert_eq!(back.c.0, q.c.0);
    assert_eq!(encode_qeq(&back), bytes);

    let empty = QEQ::new(LC::new(), LC::new(), LC::new());
    assert_eq!(encode_qeq(&empty), vec![0x83, 0x80, 0x80, 0x80]);
    assert!(decode_qeq(&[0x83, 0x80, 0x80, 0x80]).unwrap().a.0.is_empty());
}

#[test]
fn canonical_forms_have_the_same_record() {
    let a = LC(vec![(3, FS::from_u64(2)), (1, FS::one()), (3, FS::from_u64(5)), (9, FS::zero())]);
    let b = LC(vec![(1, FS::one()), (3, FS::from_u64(7))]);
    let qa = QEQ::new(a.clone(), LC::new(), a).canonize();
    let qb = QEQ::new(b.clone(), LC::new(), b).canonize();
    assert_eq!(encode_qeq(&qa), encode_qeq(&qb));
}

fn refused<T: std::fmt::Debug>(r: Result<T, Error>) {
    match r {
        Err(Error::Encoding(_)) => {}
        other => panic!("{:?}", other),
    }
}

#[test]
fn malformed_records_are_refused() {
    let good = encode_signal(&signal(1, SignalType::Internal, "s1", Some(Value::from_u64(1))));
    for cut in 0..good.len() {
        refused(decode_signal(&good[..cut]).map(|_| ()));
    }
    let mut longer = good.clone();
    longer.push(0);
    refused(decode_signal(&longer).map(|_| ()));
    // a head longer than its size needs
    refused(decode_signal(&[0x84, 0x18, 0x01, 0x00, 0x60, 0xf6]).map(|_| ()));
    // a type that does not exist
    refused(decode_signal(&[0x84, 0x01, 0x06, 0x60, 0xf6]).map(|_| ()));
    // a name that is not UTF-8
    refused(decode_signal(&[0x84, 0x01, 0x00, 0x61, 0xff, 0xf6]).map(|_| ()));
    // a scalar that is not below the modulus
    let mut big = vec![0x84u8, 0x01, 0x00, 0x60, 0x58, 0x20];
    big.extend_from_slice(&[0xff; 32]);
    refused(decode_signal(&big).map(|_| ()));
    // the modulus itself
    let modulus = [
        0x30u8, 0x64, 0x4e, 0x72, 0xe1, 0x31, 0xa0, 0x29, 0xb8, 0x50, 0x45, 0xb6, 0x81, 0x81, 0x58,
        0x5d, 0x28, 0x33, 0xe8, 0x48, 0x79, 0xb9, 0x70, 0x91, 0x43, 0xe1, 0xf5, 0x93, 0xf0, 0x00,
        0x00, 0x01,
    ];
    let mut at = vec![0x84u8, 0x01, 0x00, 0x60, 0x58, 0x20];
    at.extend_from_slice(&modulus);
    refused(decode_signal(&at).map(|_| ()));
    let mut below = vec![0x84u8, 0x01, 0x00, 0x60, 0x58, 0x20];
    below.extend_from_slice(&modulus);
    *below.last_mut().unwrap() = 0;
    let s = decode_signal(&below).unwrap();
    assert!(same_value(&s.value, &Some(Value::from_fs(FS::one().neg()))));
    refused(decode_qeq(&[0x82, 0x80, 0x80]).map(|_| ()));
    refused(decode_qeq(&good).map(|_| ()));
}

#[test]
fn records_are_well_formed_cbor() {
    let s = signal(
        5,
        SignalType::Output,
        "main.c",
        Some(Value::LinearCombination(LC(vec![(0, FS::from_u64(2)), (300, FS::from_u64(3))]))),
    );
    let item: serde_cbor::Value = serde_cbor::from_slice(&encode_signal(&s)).unwrap();
    let scalar = |n: u8| {
        let mut b = vec![0u8; 32];
        b[31] = n;
        serde_cbor::Value::Bytes(b)
    };
    let expected = serde_cbor::Value::Array(vec![
        serde_cbor::Value::Integer(5),
        serde_cbor::Value::Integer(2),
        serde_cbor::Value::Text("main.c".to_string()),
        serde_cbor::Value::Array(vec![
            serde_cbor::Value::Array(vec![serde_cbor::Value::Integer(0), scalar(2)]),
            serde_cbor::Value::Array(vec![serde_cbor::Value::Integer(300), scalar(3)]),
        ]),
    ]);
    assert_eq!(item, expected);

    let none = signal(0, SignalType::Internal, "a", None);
    let item: serde_cbor::Value = serde_cbor::from_slice(&encode_signal(&none)).unwrap();
    match item {
        serde_cbor::Value::Array(items) => assert_eq!(items[3], serde_cbor::Value::Null),
        other => panic!("{:?}", other),
    }
    let _ = BTreeMap::<u8, u8>::new();
}
