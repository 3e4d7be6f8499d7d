use circom2_compiler::algebra::field::FS;
use circom2_compiler::algebra::lc::LC;
use circom2_compiler::algebra::qeq::QEQ;
use circom2_compiler::algebra::value::Value;
use circom2_compiler::storage::ram::RamSignals;
use circom2_compiler::storage::types::{Signal, SignalType, Signals};

#[test]
fn text_of_combinations_and_equations() {
    assert_eq!(LC::new().to_string(), "[ ]");
    assert_eq!(LC(vec![(0, FS::one())]).to_string(), "[1s0]");
    assert_eq!(LC(vec![(0, FS::from_u64(2)), (13, FS::from_u64(40))]).to_string(), "[2s0+40s13]");
    assert_eq!(QEQ::from_constant(&FS::one()).to_string(), "[ ]*[ ]+[1s0]");
    assert_eq!(QEQ::from_constant(&FS::from_u64(2)).to_string(), "[ ]*[ ]+[2s0]");
    assert_eq!(QEQ::from_constant(&FS::zero()).to_string(), "[ ]*[ ]+[ ]");
    let q = QEQ::new(LC::from_signal(2), LC::from_signal(3), LC::from_signal(4).neg());
    assert_eq!(
        q.to_string(),
        "[1s2]*[1s3]+[21888242871839275222246405745257275088548364400416034343698204186575808495616s4]"
    );
    assert_eq!(Value::from_u64(21).to_string(), "21");
    assert_eq!(Value::Unknown.to_string(), "?");
    assert_eq!(Value::from_signal(5).to_string(), "[1s5]");
}

#[test]
fn text_of_signals() {
    let mut signals = RamSignals::default();
    signals.insert("main.c".to_string(), SignalType::Output, None).unwrap();
    signals.update(1, Value::from_u64(21)).unwrap();
    assert_eq!(signals.to_string(0).unwrap(), "one:PublicInput:Some(1)");
    assert_eq!(signals.to_string(1).unwrap(), "main.c:Output:Some(21)");
    assert!(signals.to_string(2).is_err());
    assert_eq!(
        signals.dump(),
        "signals --------------------------------------------\none:PublicInput:Some(1)\nmain.c:Output:Some(21)\n"
    );
    let s = Signal { id: 3, xtype: SignalType::Internal, full_name: "a".to_string(), value: None };
    assert_eq!(s.to_string(), "a:Internal:None");
}

#[test]
fn public_signals_are_outputs_and_public_inputs_of_main() {
    let public = |name: &str, xtype: SignalType| {
        Signal { id: 1, xtype, full_name: name.to_string(), value: None }.is_public_input()
    };
    assert!(public("main.c", SignalType::Output));
    assert!(public("main.c", SignalType::PublicInput));
    assert!(!public("main.c", SignalType::PrivateInput));
    assert!(!public("main.c", SignalType::Internal));
    assert!(!public("main.c", SignalType::Input));
    assert!(!public("main.sub.c", SignalType::Output));
    assert!(!public("one", SignalType::PublicInput));
    assert!(!public("main", SignalType::Component));
    assert!(!public("", SignalType::Output));
    assert!(public(".", SignalType::Output));
}
