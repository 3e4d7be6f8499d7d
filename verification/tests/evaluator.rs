use circom2_compiler::algebra::field::FS;
use circom2_compiler::algebra::lc::LC;
use circom2_compiler::algebra::value::Value;
use circom2_compiler::evaluator::ast::{Circuit, Expression, Statement, Target, Template};
use circom2_compiler::evaluator::check::check_constraints_eval_zero;
use circom2_compiler::evaluator::error::Error;
use circom2_compiler::evaluator::eval::Evaluator;
use circom2_compiler::evaluator::semantics::Mode;
use circom2_compiler::storage::error::Error as StorageError;
use circom2_compiler::storage::ram::{Ram, RamConstraints, RamSignals};
use circom2_compiler::storage::types::{Constraints, SignalType, Signals, StorageFactory};

fn var(name: &str) -> Expression {
    Expression::Variable(name.to_string())
}

fn signal(name: &str, xtype: SignalType) -> Statement {
    Statement::Signal { name: name.to_string(), xtype }
}

fn product_circuit() -> Circuit {
    Circuit {
        templates: vec![Template {
            name: "t".to_string(),
            parameters: vec![],
            body: vec![
                signal("a", SignalType::PrivateInput),
                signal("b", SignalType::PrivateInput),
                signal("c", SignalType::Output),
                Statement::ConstrainedAssign {
                    target: Target::Signal("c".to_string()),
                    value: Expression::Mul(Box::new(var("a")), Box::new(var("b"))),
                },
            ],
        }],
        main: "t".to_string(),
    }
}

fn evaluator(mode: Mode) -> Evaluator<RamSignals, RamConstraints> {
    let mut ram = Ram::default();
    Evaluator::new(mode, ram.new_signals().unwrap(), ram.new_constraints().unwrap())
}

fn scalar(ev: &Evaluator<RamSignals, RamConstraints>, name: &str) -> Option<FS> {
    match ev.signals.get_by_name(name).unwrap().unwrap().value {
        Some(Value::FieldScalar(f)) => Some(f),
        _ => None,
    }
}

#[test]
fn product_gives_one_constraint() {
    let mut ev = evaluator(Mode::GenConstraints);
    ev.eval(&product_circuit()).unwrap();
    assert_eq!(ev.constraints.len().unwrap(), 1);
    let a = ev.signals.get_by_name("main.a").unwrap().unwrap().id;
    let b = ev.signals.get_by_name("main.b").unwrap().unwrap().id;
    let c = ev.signals.get_by_name("main.c").unwrap().unwrap().id;
    assert_eq!((a, b, c), (1, 2, 3));
    let q = ev.constraints.get(0).unwrap();
    assert_eq!(q.a.0, vec![(a, FS::one())]);
    assert_eq!(q.b.0, vec![(b, FS::one())]);
    assert_eq!(q.c.0, vec![(c, FS::one().neg())]);
    assert!(ev.signals.get_by_name("main.c").unwrap().unwrap().value.is_none());
}

#[test]
fn witness_of_product_passes_the_check() {
    let mut r1cs = evaluator(Mode::GenConstraints);
    r1cs.eval(&product_circuit()).unwrap();

    let mut witness = evaluator(Mode::GenWitness);
    witness.set_deferred_value("main.a".to_string(), Value::from_u64(7));
    witness.set_deferred_value("main.b".to_string(), Value::from_u64(3));
    witness.eval(&product_circuit()).unwrap();
    assert_eq!(witness.constraints.len().unwrap(), 0);
    assert_eq!(scalar(&witness, "main.c"), Some(FS::from_u64(21)));
    assert_eq!(witness.signals.len().unwrap(), r1cs.signals.len().unwrap());

    check_constraints_eval_zero(&r1cs.constraints, &witness.signals).unwrap();

    let c = witness.signals.get_by_name("main.c").unwrap().unwrap().id;
    witness.signals.update(c, Value::from_u64(22)).unwrap();
    match check_constraints_eval_zero(&r1cs.constraints, &witness.signals) {
        Err(Error::Unsatisfied(0)) => {}
        other => panic!("{:?}", other),
    }
}

#[test]
fn witness_needs_its_inputs() {
    let mut witness = evaluator(Mode::GenWitness);
    witness.set_deferred_value("main.a".to_string(), Value::from_u64(7));
    match witness.eval(&product_circuit()) {
        Err(Error::NotFound(name)) => assert_eq!(name, "main.b"),
        other => panic!("{:?}", other),
    }
}

#[test]
fn check_reports_a_signal_without_value() {
    let mut r1cs = evaluator(Mode::GenConstraints);
    r1cs.eval(&product_circuit()).unwrap();
    match check_constraints_eval_zero(&r1cs.constraints, &r1cs.signals) {
        Err(Error::NotFound(_)) => {}
        other => panic!("{:?}", other),
    }
}

#[test]
fn nested_product_becomes_an_internal_signal() {
    // d <== a * b * c
    let circuit = Circuit {
        templates: vec![Template {
            name: "t".to_string(),
            parameters: vec![],
            body: vec![
                signal("a", SignalType::PrivateInput),
                signal("b", SignalType::PrivateInput),
                signal("c", SignalType::PrivateInput),
                signal("d", SignalType::Output),
                Statement::ConstrainedAssign {
                    target: Target::Signal("d".to_string()),
                    value: Expression::Mul(
                        Box::new(Expression::Mul(Box::new(var("a")), Box::new(var("b")))),
                        Box::new(var("c")),
                    ),
                },
            ],
        }],
        main: "t".to_string(),
    };
    let mut r1cs = evaluator(Mode::GenConstraints);
    r1cs.eval(&circuit).unwrap();
    assert_eq!(r1cs.constraints.len().unwrap(), 2);
    let t = r1cs.signals.get_by_name("main.~5").unwrap().unwrap();
    assert_eq!(t.id, 5);
    assert_eq!(t.xtype, SignalType::Internal);
    let first = r1cs.constraints.get(0).unwrap();
    assert_eq!(first.a.0, vec![(1, FS::one())]);
    assert_eq!(first.b.0, vec![(2, FS::one())]);
    assert_eq!(first.c.0, vec![(5, FS::one().neg())]);
    let second = r1cs.constraints.get(1).unwrap();
    assert_eq!(second.a.0, vec![(5, FS::one())]);
    assert_eq!(second.b.0, vec![(3, FS::one())]);
    assert_eq!(second.c.0, vec![(4, FS::one().neg())]);

    let mut witness = evaluator(Mode::GenWitness);
    witness.set_deferred_value("main.a".to_string(), Value::from_u64(2));
    witness.set_deferred_value("main.b".to_string(), Value::from_u64(3));
    witness.set_deferred_value("main.c".to_string(), Value::from_u64(5));
    witness.eval(&circuit).unwrap();
    assert_eq!(scalar(&witness, "main.~5"), Some(FS::from_u64(6)));
    assert_eq!(scalar(&witness, "main.d"), Some(FS::from_u64(30)));
    check_constraints_eval_zero(&r1cs.constraints, &witness.signals).unwrap();
}

#[test]
fn linear_assignment_is_one_times_the_difference() {
    // c <== a + 2
    let circuit = Circuit {
        templates: vec![Template {
            name: "t".to_string(),
            parameters: vec![],
            body: vec![
                signal("a", SignalType::PrivateInput),
                signal("c", SignalType::Output),
                Statement::ConstrainedAssign {
                    target: Target::Signal("c".to_string()),
                    value: Expression::Add(
                        Box::new(var("a")),
                        Box::new(Expression::Number(FS::from_u64(2))),
                    ),
                },
            ],
        }],
        main: "t".to_string(),
    };
    let mut r1cs = evaluator(Mode::GenConstraints);
    r1cs.eval(&circuit).unwrap();
    let q = r1cs.constraints.get(0).unwrap();
    assert_eq!(q.a.0, vec![(0, FS::one())]);
    assert_eq!(q.b.0, vec![(0, FS::from_u64(2)), (1, FS::one()), (2, FS::one().neg())]);
    assert!(q.c.0.is_empty());
    match r1cs.signals.get_by_name("main.c").unwrap().unwrap().value {
        Some(Value::LinearCombination(LC(terms))) => {
            assert_eq!(terms, vec![(0, FS::from_u64(2)), (1, FS::one())])
        }
        other => panic!("{:?}", other),
    }

    let mut witness = evaluator(Mode::GenWitness);
    witness.set_deferred_value("main.a".to_string(), Value::from_u64(40));
    witness.eval(&circuit).unwrap();
    assert_eq!(scalar(&witness, "main.c"), Some(FS::from_u64(42)));
    check_constraints_eval_zero(&r1cs.constraints, &witness.signals).unwrap();
}

#[test]
fn sub_component_signals_carry_the_path() {
    let circuit = Circuit {
        templates: vec![
            Template {
                name: "double".to_string(),
                parameters: vec![],
                body: vec![
                    signal("x", SignalType::Internal),
                    signal("y", SignalType::Output),
                    Statement::ConstrainedAssign {
                        target: Target::Signal("y".to_string()),
                        value: Expression::Add(Box::new(var("x")), Box::new(var("x"))),
                    },
                ],
            },
            Template {
                name: "top".to_string(),
                parameters: vec![],
                body: vec![
                    signal("a", SignalType::PrivateInput),
                    signal("out", SignalType::Output),
                    Statement::Component {
                        name: "d".to_string(),
                        template: "double".to_string(),
                        arguments: vec![],
                    },
                    Statement::ConstrainedAssign {
                        target: Target::Pin("d".to_string(), "x".to_string()),
                        value: var("a"),
                    },
                    Statement::ConstrainedAssign {
                        target: Target::Signal("out".to_string()),
                        value: Expression::Pin("d".to_string(), "y".to_string()),
                    },
                ],
            },
        ],
        main: "top".to_string(),
    };
    let mut r1cs = evaluator(Mode::GenConstraints);
    r1cs.eval(&circuit).unwrap();
    let names: Vec<String> = (0..r1cs.signals.len().unwrap())
        .map(|i| r1cs.signals.get_by_id(i).unwrap().unwrap().full_name)
        .collect();
    assert_eq!(names, vec!["one", "main.a", "main.out", "main.d.x", "main.d.y"]);
    assert_eq!(r1cs.constraints.len().unwrap(), 3);
}

#[test]
fn errors_of_the_walk() {
    let run = |body: Vec<Statement>| {
        let circuit = Circuit {
            templates: vec![Template { name: "t".to_string(), parameters: vec![], body }],
            main: "t".to_string(),
        };
        let mut ev = evaluator(Mode::GenConstraints);
        ev.eval(&circuit)
    };
    assert!(matches!(
        run(vec![signal("a", SignalType::Internal), signal("a", SignalType::Internal)]),
        Err(Error::AlreadyExists(_))
    ));
    assert!(matches!(
        run(vec![Statement::Assign { name: "v".to_string(), value: var("a") }]),
        Err(Error::NotFound(_))
    ));
    assert!(matches!(
        run(vec![Statement::Component {
            name: "c".to_string(),
            template: "none".to_string(),
            arguments: vec![],
        }]),
        Err(Error::NotFound(_))
    ));
    assert!(matches!(
        run(vec![Statement::ConstrainedAssign {
            target: Target::Pin("c".to_string(), "x".to_string()),
            value: Expression::Number(FS::one()),
        }]),
        Err(Error::InvalidSelector(_))
    ));
    assert!(matches!(
        run(vec![
            signal("a", SignalType::Component),
            Statement::ConstrainedAssign {
                target: Target::Signal("a".to_string()),
                value: Expression::Number(FS::one()),
            },
        ]),
        Err(Error::InvalidType(_))
    ));
    assert!(matches!(
        run(vec![
            Statement::Variable { name: "v".to_string(), init: None },
            signal("a", SignalType::Internal),
            Statement::ConstrainedAssign { target: Target::Signal("a".to_string()), value: var("v") },
        ]),
        Err(Error::CannotGenerateConstrain(_))
    ));
    assert!(matches!(
        run(vec![
            Statement::Variable { name: "v".to_string(), init: None },
            Statement::Variable { name: "v".to_string(), init: None },
        ]),
        Err(Error::AlreadyExists(_))
    ));
    assert!(matches!(
        run(vec![Statement::Component {
            name: "c".to_string(),
            template: "t".to_string(),
            arguments: vec![],
        }]),
        Err(Error::NotYetImplemented(_))
    ));
    assert!(matches!(
        run(vec![
            Statement::Variable { name: "v".to_string(), init: None },
            Statement::Variable {
                name: "w".to_string(),
                init: Some(Expression::Mul(Box::new(var("v")), Box::new(var("v")))),
            },
        ]),
        Err(Error::Algebra(_))
    ));
}

fn scaling_circuit(arguments: Vec<Expression>) -> Circuit {
    // template scale(k) { signal input x; signal output y; y <== k * x; }
    // template top() { signal private input a; signal output out;
    //                  component s = scale(..); s.x <== a; out <== s.y; }
    Circuit {
        templates: vec![
            Template {
                name: "scale".to_string(),
                parameters: vec!["k".to_string()],
                body: vec![
                    signal("x", SignalType::Input),
                    signal("y", SignalType::Output),
                    Statement::ConstrainedAssign {
                        target: Target::Signal("y".to_string()),
                        value: Expression::Mul(Box::new(var("k")), Box::new(var("x"))),
                    },
                ],
            },
            Template {
                name: "top".to_string(),
                parameters: vec![],
                body: vec![
                    signal("a", SignalType::PrivateInput),
                    signal("out", SignalType::Output),
                    Statement::Variable {
                        name: "three".to_string(),
                        init: Some(Expression::Number(FS::from_u64(3))),
                    },
                    Statement::Component {
                        name: "s".to_string(),
                        template: "scale".to_string(),
                        arguments,
                    },
                    Statement::ConstrainedAssign {
                        target: Target::Pin("s".to_string(), "x".to_string()),
                        value: var("a"),
                    },
                    Statement::ConstrainedAssign {
                        target: Target::Signal("out".to_string()),
                        value: Expression::Pin("s".to_string(), "y".to_string()),
                    },
                ],
            },
        ],
        main: "top".to_string(),
    }
}

#[test]
fn parameters_are_constants_of_the_instance() {
    // scale(three + 2)
    let arguments = || {
        vec![Expression::Add(Box::new(var("three")), Box::new(Expression::Number(FS::from_u64(2))))]
    };
    let mut r1cs = evaluator(Mode::GenConstraints);
    r1cs.eval(&scaling_circuit(arguments())).unwrap();
    assert_eq!(r1cs.constraints.len().unwrap(), 3);
    // main.s.y <== 5 * main.s.x is linear: one * (5 x - y)
    let x = r1cs.signals.get_by_name("main.s.x").unwrap().unwrap().id;
    let y = r1cs.signals.get_by_name("main.s.y").unwrap().unwrap().id;
    let q = r1cs.constraints.get(0).unwrap();
    assert_eq!(q.a.0, vec![(0, FS::one())]);
    assert_eq!(q.b.0, vec![(x, FS::from_u64(5)), (y, FS::one().neg())]);

    // an input of a sub-component takes its value from outside as well
    let mut witness = evaluator(Mode::GenWitness);
    witness.set_deferred_value("main.a".to_string(), Value::from_u64(8));
    match witness.eval(&scaling_circuit(arguments())) {
        Err(Error::NotFound(name)) => assert_eq!(name, "main.s.x"),
        other => panic!("{:?}", other),
    }
    let mut witness = evaluator(Mode::GenWitness);
    witness.set_deferred_value("main.a".to_string(), Value::from_u64(8));
    witness.set_deferred_value("main.s.x".to_string(), Value::from_u64(8));
    witness.eval(&scaling_circuit(arguments())).unwrap();
    assert_eq!(scalar(&witness, "main.s.y"), Some(FS::from_u64(40)));
    assert_eq!(scalar(&witness, "main.out"), Some(FS::from_u64(40)));
    check_constraints_eval_zero(&r1cs.constraints, &witness.signals).unwrap();

    // a value from outside that the circuit contradicts
    let mut witness = evaluator(Mode::GenWitness);
    witness.set_deferred_value("main.a".to_string(), Value::from_u64(8));
    witness.set_deferred_value("main.s.x".to_string(), Value::from_u64(9));
    witness.eval(&scaling_circuit(arguments())).unwrap();
    match check_constraints_eval_zero(&r1cs.constraints, &witness.signals) {
        Err(Error::Unsatisfied(0)) => {}
        other => panic!("{:?}", other),
    }
}

#[test]
fn arguments_must_fit_the_parameters() {
    let mut ev = evaluator(Mode::GenConstraints);
    assert!(matches!(ev.eval(&scaling_circuit(vec![])), Err(Error::InvalidParameter(_))));
    let mut ev = evaluator(Mode::GenConstraints);
    assert!(matches!(
        ev.eval(&scaling_circuit(vec![var("a")])),
        Err(Error::InvalidParameter(_))
    ));
    let mut ev = evaluator(Mode::GenConstraints);
    assert!(matches!(
        ev.eval(&scaling_circuit(vec![var("three"), var("three")])),
        Err(Error::InvalidParameter(_))
    ));
    let mut ev = evaluator(Mode::GenConstraints);
    assert!(matches!(ev.eval(&scaling_circuit(vec![var("nothing")])), Err(Error::NotFound(_))));
}

#[test]
fn errors_of_the_tables_as_the_evaluator_reports_them() {
    let text = || "what failed".to_string();
    assert!(matches!(
        Error::from_storage(StorageError::NotFound(text())),
        Error::NotFound(m) if m == "what failed"
    ));
    assert!(matches!(
        Error::from_storage(StorageError::AlreadyExists(text())),
        Error::AlreadyExists(m) if m == "what failed"
    ));
    assert!(matches!(
        Error::from_storage(StorageError::Encoding(text())),
        Error::Io(m) if m == "what failed"
    ));
    assert!(matches!(
        Error::from_storage(StorageError::Io(text())),
        Error::Io(m) if m == "what failed"
    ));
}

#[test]
fn hints_matter_for_the_witness_only() {
    // signal private input a; signal output c; c <-- a * a; c === a * a;
    let square = || Expression::Mul(Box::new(var("a")), Box::new(var("a")));
    let circuit = Circuit {
        templates: vec![Template {
            name: "t".to_string(),
            parameters: vec![],
            body: vec![
                signal("a", SignalType::PrivateInput),
                signal("c", SignalType::Output),
                Statement::Hint { target: Target::Signal("c".to_string()), value: square() },
                Statement::Constrain { left: square(), right: var("c") },
            ],
        }],
        main: "t".to_string(),
    };
    let mut r1cs = evaluator(Mode::GenConstraints);
    r1cs.eval(&circuit).unwrap();
    assert_eq!(r1cs.constraints.len().unwrap(), 1);
    assert_eq!(
        r1cs.constraints.get(0).unwrap().to_string(),
        "[1s1]*[1s1]+[21888242871839275222246405745257275088548364400416034343698204186575808495616s2]"
    );
    assert!(r1cs.signals.get_by_name("main.c").unwrap().unwrap().value.is_none());

    let mut witness = evaluator(Mode::GenWitness);
    witness.set_deferred_value("main.a".to_string(), Value::from_u64(12));
    witness.eval(&circuit).unwrap();
    assert_eq!(witness.constraints.len().unwrap(), 0);
    assert_eq!(scalar(&witness, "main.c"), Some(FS::from_u64(144)));
    check_constraints_eval_zero(&r1cs.constraints, &witness.signals).unwrap();
}

#[test]
fn variables_resolve_outwards() {
    // template inner() { signal output y; y <== k + 1; }   with k of the outer scope
    // template top() { var k = 4; k = k * 2; component i = inner(); signal output out;
    //                  out <== i.y; }
    let circuit = Circuit {
        templates: vec![
            Template {
                name: "inner".to_string(),
                parameters: vec![],
                body: vec![
                    signal("y", SignalType::Output),
                    Statement::ConstrainedAssign {
                        target: Target::Signal("y".to_string()),
                        value: Expression::Add(
                            Box::new(var("k")),
                            Box::new(Expression::Number(FS::one())),
                        ),
                    },
                ],
            },
            Template {
                name: "top".to_string(),
                parameters: vec![],
                body: vec![
                    Statement::Variable {
                        name: "k".to_string(),
                        init: Some(Expression::Number(FS::from_u64(4))),
                    },
                    Statement::Assign {
                        name: "k".to_string(),
                        value: Expression::Mul(
                            Box::new(var("k")),
                            Box::new(Expression::Number(FS::from_u64(2))),
                        ),
                    },
                    Statement::Component {
                        name: "i".to_string(),
                        template: "inner".to_string(),
                        arguments: vec![],
                    },
                    signal("out", SignalType::Output),
                    Statement::ConstrainedAssign {
                        target: Target::Signal("out".to_string()),
                        value: Expression::Sub(
                            Box::new(Expression::Pin("i".to_string(), "y".to_string())),
                            Box::new(Expression::Neg(Box::new(var("k")))),
                        ),
                    },
                ],
            },
        ],
        main: "top".to_string(),
    };
    let mut witness = evaluator(Mode::GenWitness);
    witness.eval(&circuit).unwrap();
    assert_eq!(scalar(&witness, "main.i.y"), Some(FS::from_u64(9)));
    assert_eq!(scalar(&witness, "main.out"), Some(FS::from_u64(17)));
    let mut r1cs = evaluator(Mode::GenConstraints);
    r1cs.eval(&circuit).unwrap();
    check_constraints_eval_zero(&r1cs.constraints, &witness.signals).unwrap();
    // a component declared twice
    let twice = Circuit {
        templates: vec![
            Template { name: "inner".to_string(), parameters: vec![], body: vec![] },
            Template {
                name: "top".to_string(),
                parameters: vec![],
                body: vec![
                    Statement::Component {
                        name: "i".to_string(),
                        template: "inner".to_string(),
                        arguments: vec![],
                    },
                    Statement::Component {
                        name: "i".to_string(),
                        template: "inner".to_string(),
                        arguments: vec![],
                    },
                ],
            },
        ],
        main: "top".to_string(),
    };
    assert!(matches!(evaluator(Mode::GenConstraints).eval(&twice), Err(Error::AlreadyExists(_))));
}
