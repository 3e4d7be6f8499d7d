use circom2_compiler::algebra::error::Error as AlgebraError;
use circom2_compiler::algebra::field::FS;
use circom2_compiler::algebra::lc::LC;
use circom2_compiler::algebra::qeq::QEQ;
use circom2_compiler::algebra::value::Value;
use circom2_compiler::prover::error::Error;
use circom2_compiler::prover::format::{read_constraints, write_constraints};
use circom2_compiler::prover::inputs::{flatten_json, public_inputs, Json};
use circom2_compiler::storage::error::Error as StorageError;
use circom2_compiler::storage::ram::{RamConstraints, RamSignals};
use circom2_compiler::storage::types::{Constraints, SignalType, Signals};

fn text(s: &str) -> Json {
    Json::Text(s.to_string())
}

#[test]
fn flatten_names_elements_and_members() {
    let tree = Json::Object(vec![
        ("a".to_string(), Json::Number(Some(7))),
        ("b".to_string(), Json::Array(vec![text("3"), text("0x10"), Json::Array(vec![text("5")])])),
        ("c".to_string(), Json::Object(vec![("d".to_string(), Json::Number(Some(0)))])),
    ]);
    let flat = flatten_json("main", &tree).unwrap();
    let expected = vec![
        ("main.a".to_string(), FS::from_u64(7)),
        ("main.b[0]".to_string(), FS::from_u64(3)),
        ("main.b[1]".to_string(), FS::from_u64(16)),
        ("main.b[2][0]".to_string(), FS::from_u64(5)),
        ("main.c.d".to_string(), FS::from_u64(0)),
    ];
    assert_eq!(flat, expected);
    assert_eq!(flatten_json("x", &text("12")).unwrap(), vec![("x".to_string(), FS::from_u64(12))]);
    assert!(flatten_json("x", &Json::Array(vec![])).unwrap().is_empty());
    let long: Vec<Json> = (0..12).map(|n| Json::Number(Some(n))).collect();
    let flat = flatten_json("", &Json::Array(long)).unwrap();
    assert_eq!(flat[11], ("[11]".to_string(), FS::from_u64(11)));
}

#[test]
fn flatten_refuses_what_is_no_input() {
    for bad in [Json::Null, Json::Bool(true), Json::Number(None)] {
        match flatten_json("main", &Json::Array(vec![Json::Number(Some(1)), bad])) {
            Err(Error::Unexpected(_)) => {}
            other => panic!("{:?}", other),
        }
    }
    match flatten_json("main", &Json::Object(vec![("a".to_string(), text("1x"))])) {
        Err(Error::Algebra(AlgebraError::InvalidOperation(_))) => {}
        other => panic!("{:?}", other),
    }
}

#[test]
fn section_of_constraints_reads_back() {
    let mut constraints = RamConstraints::default();
    constraints.push(QEQ::from_constant(&FS::one())).unwrap();
    constraints
        .push(QEQ::new(LC::from_signal(2), LC::from_signal(3), LC::from_signal(4).neg()))
        .unwrap();
    let mut bytes = write_constraints(&constraints).unwrap();
    assert_eq!(&bytes[..4], &[0, 0, 0, 2]);
    // the first record: three arrays, the third with one term
    let first = [0x83u8, 0x80, 0x80, 0x81, 0x82, 0x00, 0x58, 0x20];
    assert_eq!(&bytes[4..8], &[0, 0, 0, 40]);
    assert_eq!(&bytes[8..16], &first);
    let section_len = bytes.len();
    bytes.extend_from_slice(b"parameters follow");
    let (back, end) = read_constraints(&bytes).unwrap();
    assert_eq!(end, section_len);
    assert_eq!(back.len().unwrap(), 2);
    assert_eq!(back.get(0).unwrap().to_string(), "[ ]*[ ]+[1s0]");
    assert_eq!(back.get(1).unwrap().to_string(), constraints.get(1).unwrap().to_string());

    let empty = write_constraints(&RamConstraints::default()).unwrap();
    assert_eq!(empty, vec![0, 0, 0, 0]);
    let (none, end) = read_constraints(&empty).unwrap();
    assert_eq!((none.len().unwrap(), end), (0, 4));
}

#[test]
fn broken_sections_are_refused() {
    let mut constraints = RamConstraints::default();
    constraints.push(QEQ::from_constant(&FS::one())).unwrap();
    let bytes = write_constraints(&constraints).unwrap();
    for cut in 0..bytes.len() {
        match read_constraints(&bytes[..cut]).map(|_| ()) {
            Err(StorageError::Encoding(_)) => {}
            other => panic!("{} {:?}", cut, other),
        }
    }
    let mut wrong = bytes.clone();
    wrong[8] = 0x82;
    assert!(read_constraints(&wrong).is_err());
    // a count of 1 read as big-endian, not 16777216
    assert_eq!(&bytes[..4], &[0, 0, 0, 1]);
    let mut swapped = bytes.clone();
    swapped[..4].copy_from_slice(&[1, 0, 0, 0]);
    assert!(read_constraints(&swapped).is_err());
}

#[test]
fn public_inputs_of_a_witness() {
    let mut signals = RamSignals::default();
    signals.insert("main".to_string(), SignalType::Component, None).unwrap();
    signals.insert("main.a".to_string(), SignalType::PrivateInput, Some(Value::from(7u64))).unwrap();
    signals.insert("main.p".to_string(), SignalType::PublicInput, Some(Value::from(3u64))).unwrap();
    signals.insert("main.sub.o".to_string(), SignalType::Output, Some(Value::from(9u64))).unwrap();
    signals.insert("main.c".to_string(), SignalType::Output, Some(Value::from(21u64))).unwrap();
    assert_eq!(
        public_inputs(&signals).unwrap(),
        vec![("main.p".to_string(), FS::from_u64(3)), ("main.c".to_string(), FS::from_u64(21))]
    );
    signals.insert("main.d".to_string(), SignalType::Output, None).unwrap();
    match public_inputs(&signals) {
        Err(StorageError::NotFound(_)) => {}
        other => panic!("{:?}", other),
    }
}

#[test]
fn coordinates_of_printed_points() {
    use_points();
}

fn use_points() {
    let x = format!("0x{}", "0123456789abcdefABCDEF0123456789abcdef0123456789abcdef0123456789");
    let y = format!("0X{}", "f".repeat(64));
    let g1 = format!("G1(x=Fq({}), y=Fq({}))", x, y);
    assert_eq!(
        circom2_compiler::prover::points::parse_g1(&g1),
        Some((x.clone(), y.clone()))
    );
    assert_eq!(
        circom2_compiler::prover::points::parse_g1_hex(&g1),
        Some(format!("{}, {}", x, y))
    );
    // printed: x0 = x, x1 = y, y0 = y, y1 = x
    let g2 = format!("G2(x=Fq2(Fq({}) + Fq({}) * u), y=Fq2(Fq({}) + Fq({}) * u))", x, y, y, x);
    // the coefficient of u first, then the constant part: (x1, x0, y1, y0)
    assert_eq!(
        circom2_compiler::prover::points::parse_g2(&g2),
        Some((y.clone(), x.clone(), x.clone(), y.clone()))
    );
    assert_eq!(
        circom2_compiler::prover::points::parse_g2_hex(&g2),
        Some(format!("[{}, {}], [{}, {}]", y, x, x, y))
    );
    let z = format!("0x{}", "0".repeat(64));
    let w = format!("0x{}", "1".repeat(64));
    let four = format!("G2(x=Fq2(Fq({}) + Fq({}) * u), y=Fq2(Fq({}) + Fq({}) * u))", x, y, z, w);
    assert_eq!(
        circom2_compiler::prover::points::parse_g2(&four),
        Some((y.clone(), x.clone(), w.clone(), z.clone()))
    );
    for bad in [
        "G1(Infinity)".to_string(),
        g1.replace("G1", "G3"),
        g1.replace("0x0", "0xg"),
        g1[1..].to_string(),
        g1[..g1.len() - 1].to_string(),
        g2.replace(" * u", " * v"),
        g1.replace("0x0", "0é"),
        String::new(),
    ] {
        assert_eq!(circom2_compiler::prover::points::parse_g1(&bad), None);
        assert_eq!(circom2_compiler::prover::points::parse_g2(&bad), None);
    }
    assert_eq!(circom2_compiler::prover::points::parse_g2(&g1), None);
    assert_eq!(circom2_compiler::prover::points::parse_g1(&g2), None);
}

#[test]
fn a_point_is_found_inside_a_text() {
    let x = format!("0x{}", "a".repeat(64));
    let y = format!("0x{}", "b".repeat(64));
    let other = format!("0x{}", "c".repeat(64));
    let g1 = format!("G1(x=Fq({}), y=Fq({}))", x, y);
    let second = format!("G1(x=Fq({}), y=Fq({}))", other, y);
    let g2 = format!("G2(x=Fq2(Fq({}) + Fq({}) * u), y=Fq2(Fq({}) + Fq({}) * u))", x, y, y, x);
    for text in [
        format!("{} ", g1),
        format!("alpha = {}", g1),
        format!("G1(x=Fq(0x12), {};", g1),
        format!("é ∀ {} ∃", g1),
        format!("{}{}", g1, second),
        format!("{} and {}", g2, g1),
    ] {
        assert_eq!(
            circom2_compiler::prover::points::parse_g1(&text),
            Some((x.clone(), y.clone())),
            "{}",
            text
        );
    }
    assert_eq!(
        circom2_compiler::prover::points::parse_g1(&format!("{}{}", second, g1)),
        Some((other.clone(), y.clone()))
    );
    assert_eq!(
        circom2_compiler::prover::points::parse_g2(&format!("é: {} and {}", g2, g1)),
        Some((y.clone(), x.clone(), x.clone(), y.clone()))
    );
}
