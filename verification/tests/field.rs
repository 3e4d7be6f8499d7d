use circom2_compiler::algebra::error::Error;
use circom2_compiler::algebra::field::FS;
use circom2_compiler::algebra::value::Value;

const MODULUS: &str = "21888242871839275222246405745257275088548364400416034343698204186575808495617";

#[test]
fn parse_decimal_and_print() {
    let x = FS::parse("1234567890123456789012345678901234567890").unwrap();
    assert_eq!(x.to_string(), "1234567890123456789012345678901234567890");
    assert_eq!(FS::parse("0").unwrap(), FS::zero());
    assert_eq!(FS::parse("0007").unwrap(), FS::from_u64(7));
    assert_eq!(FS::zero().to_string(), "0");
}

#[test]
fn parse_hex() {
    assert_eq!(FS::parse("0xff").unwrap(), FS::from_u64(255));
    assert_eq!(FS::parse("0XA0").unwrap(), FS::from_u64(160));
    assert_eq!(
        FS::parse("0x30644e72e131a029b85045b68181585d2833e84879b9709143e1f593f0000000")
            .unwrap()
            .add(&FS::one()),
        FS::zero()
    );
}

#[test]
fn parse_reduces_modulo_the_order() {
    assert_eq!(FS::parse(MODULUS).unwrap(), FS::zero());
    let big = "21888242871839275222246405745257275088548364400416034343698204186575808495620";
    assert_eq!(FS::parse(big).unwrap(), FS::from_u64(3));
}

#[test]
fn parse_refuses_malformed_text() {
    for text in ["", "12a", "0x", "0xg1", "-1", " 1", "1 ", "0x 1", "١٢"] {
        match FS::parse(text) {
            Err(Error::InvalidOperation(_)) => {}
            other => panic!("{:?} gave {:?}", text, other),
        }
    }
}

#[test]
fn add_wraps_at_the_order() {
    let minus_one = FS::one().neg();
    assert_eq!(
        minus_one.to_string(),
        "21888242871839275222246405745257275088548364400416034343698204186575808495616"
    );
    assert_eq!(minus_one.add(&FS::one()), FS::zero());
    assert_eq!(minus_one.add(&FS::from_u64(5)), FS::from_u64(4));
    assert_eq!(FS::from_u64(2).add(&FS::from_u64(3)), FS::from_u64(5));
}

#[test]
fn sub_and_neg() {
    assert_eq!(FS::from_u64(3).sub(&FS::from_u64(5)), FS::from_u64(2).neg());
    assert_eq!(FS::from_u64(5).sub(&FS::from_u64(3)), FS::from_u64(2));
    assert_eq!(FS::from_u64(5).sub(&FS::from_u64(5)), FS::zero());
    assert_eq!(FS::zero().neg(), FS::zero());
}

#[test]
fn mul_exact_values() {
    assert_eq!(FS::from_u64(7).mul(&FS::from_u64(3)), FS::from_u64(21));
    assert_eq!(FS::from_u64(7).mul(&FS::zero()), FS::zero());
    let minus_one = FS::one().neg();
    assert_eq!(minus_one.mul(&minus_one), FS::one());
    let x = FS::parse("123456789012345678901234567890123456789012345678901234567890").unwrap();
    let y = FS::parse("987654321098765432109876543210987654321098765432109876543210").unwrap();
    assert_eq!(
        x.mul(&y).to_string(),
        "8449102277216700394905151088800806688341053051235691823893742333523748863838"
    );
}

#[test]
fn inverse_of_zero_is_refused() {
    match FS::zero().inverse() {
        Err(Error::DivisionByZero) => {}
        other => panic!("{:?}", other),
    }
}

#[test]
fn inverse_times_element_is_one() {
    for n in [1u64, 2, 3, 7, 1000003, u64::MAX] {
        let x = FS::from_u64(n);
        let inv = x.inverse().unwrap();
        assert_eq!(inv.mul(&x), FS::one());
    }
    assert_eq!(
        FS::from_u64(2).inverse().unwrap().to_string(),
        "10944121435919637611123202872628637544274182200208017171849102093287904247809"
    );
    let minus_one = FS::one().neg();
    assert_eq!(minus_one.inverse().unwrap(), minus_one);
}

#[test]
fn to_u64_where_it_fits() {
    assert_eq!(FS::from_u64(u64::MAX).to_u64(), Some(u64::MAX));
    assert_eq!(FS::from_u64(u64::MAX).add(&FS::one()).to_u64(), None);
    assert_eq!(FS::zero().to_u64(), Some(0));
}

#[test]
fn conversions_from_integers() {
    assert_eq!(FS::from(22u64), FS::from_u64(22));
    match Value::from(7u64) {
        Value::FieldScalar(f) => assert_eq!(f, FS::from_u64(7)),
        other => panic!("{:?}", other),
    }
    match Value::from(FS::one()) {
        Value::FieldScalar(f) => assert_eq!(f, FS::one()),
        other => panic!("{:?}", other),
    }
}
