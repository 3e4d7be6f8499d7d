use bellman_ce::groth16::{
    create_random_proof, generate_random_parameters, prepare_verifying_key, verify_proof,
    Parameters, Proof,
};
use bellman_ce::pairing::bn256::{Bn256, Fr};
use bellman_ce::pairing::ff::PrimeField;
use bellman_ce::pairing::Engine;
use bellman_ce::{Circuit, ConstraintSystem, LinearCombination, SynthesisError, Variable};
use circom2_compiler::algebra::field::FS;
use circom2_compiler::algebra::lc::LC;
use circom2_compiler::algebra::value::Value;
use circom2_compiler::evaluator::ast::{
    Circuit as Circom, Expression, Statement, Target, Template,
};
use circom2_compiler::evaluator::check::check_constraints_eval_zero;
use circom2_compiler::evaluator::eval::Evaluator;
use circom2_compiler::evaluator::semantics::Mode;
use circom2_compiler::prover::format::{read_constraints, write_constraints};
use circom2_compiler::prover::inputs::public_inputs;
use circom2_compiler::prover::points::{parse_g1_hex, parse_g2_hex};
use circom2_compiler::storage::ram::{Ram, RamConstraints, RamSignals};
use circom2_compiler::storage::types::{Constraints, SignalType, Signals, StorageFactory};
use rand::thread_rng;
use std::marker::PhantomData;

/// The tables as a circuit of the proving backend.
struct CircomCircuit<'a, E: Engine> {
    constraints: &'a RamConstraints,
    signals: &'a RamSignals,
    phantom: PhantomData<E>,
}

fn fe_to_bellman<E: Engine>(fe: &FS) -> E::Fr {
    E::Fr::from_str(&fe.to_string()).unwrap()
}

fn value_to_bellman<E: Engine>(value: &Value) -> E::Fr {
    match value {
        Value::FieldScalar(fs) => fe_to_bellman::<E>(fs),
        _ => panic!("Invalid signal value"),
    }
}

fn lc_to_bellman<E: Engine>(
    mut base: LinearCombination<E>,
    signals: &[Variable],
    lc: &LC,
) -> LinearCombination<E> {
    for (s, v) in &lc.0 {
        base = base + (fe_to_bellman::<E>(v), signals[*s]);
    }
    base
}

impl<'a, E: Engine> Circuit<E> for CircomCircuit<'a, E> {
    fn synthesize<CS: ConstraintSystem<E>>(self, cs: &mut CS) -> Result<(), SynthesisError> {
        let mut signals = Vec::new();
        signals.push(CS::one());
        for n in 1..self.signals.len().unwrap() {
            let s = self.signals.get_by_id(n).unwrap().unwrap();
            let value = || {
                s.value
                    .clone()
                    .map(|vv| value_to_bellman::<E>(&vv))
                    .ok_or(SynthesisError::AssignmentMissing)
            };
            let signal = if s.is_public_input() {
                cs.alloc_input(|| s.full_name.clone(), value)?
            } else {
                cs.alloc(|| s.full_name.clone(), value)?
            };
            signals.push(signal);
        }
        for n in 0..self.constraints.len().unwrap() {
            let constraint = self.constraints.get(n).unwrap();
            let name = format!("c{}", n);
            cs.enforce(
                || name,
                |lc| lc_to_bellman(lc, &signals, &constraint.a),
                |lc| lc_to_bellman(lc, &signals, &constraint.b),
                |lc| lc_to_bellman(lc, &signals, &constraint.c.neg()),
            );
        }
        Ok(())
    }
}

fn product() -> Circom {
    let var = |name: &str| Expression::Variable(name.to_string());
    let signal = |name: &str, xtype| Statement::Signal { name: name.to_string(), xtype };
    Circom {
        templates: vec![Template {
            name: "t".to_string(),
            parameters: vec![],
            body: vec![
                signal("a", SignalType::PrivateInput),
                signal("b", SignalType::PrivateInput),
                signal("c", SignalType::Output),
                Statement::ConstrainedAssign {
                    target: Target::Signal("c".to_string()),
                    value: Expression::Mul(Box::new(var("a")), Box::new(var("b"))),
                },
            ],
        }],
        main: "t".to_string(),
    }
}

#[test]
fn test_generate_internal() {
    let circuit = product();

    let mut ram = Ram::default();
    let mut ev_r1cs = Evaluator::new(
        Mode::GenConstraints,
        ram.new_signals().unwrap(),
        ram.new_constraints().unwrap(),
    );
    ev_r1cs.eval(&circuit).unwrap();

    let rng = &mut thread_rng();

    // Create parameters for our circuit
    println!("Run setup ---------------------------------");
    let params = {
        let circuit = CircomCircuit::<Bn256> {
            signals: &ev_r1cs.signals,
            constraints: &ev_r1cs.constraints,
            phantom: PhantomData,
        };
        generate_random_parameters(circuit, rng).unwrap()
    };

    // Prepare the verification key (for proof verification)
    let pvk = prepare_verifying_key(&params.vk);

    // Compute witness
    let mut ram = Ram::default();
    let mut ev_witness = Evaluator::new(
        Mode::GenWitness,
        ram.new_signals().unwrap(),
        ram.new_constraints().unwrap(),
    );
    ev_witness.set_deferred_value("main.a".to_string(), Value::from(7u64));
    ev_witness.set_deferred_value("main.b".to_string(), Value::from(3u64));
    ev_witness.eval(&circuit).unwrap();

    // check constraints
    check_constraints_eval_zero(&ev_r1cs.constraints, &ev_witness.signals)
        .expect("cannot check all constraints = 0");

    println!("Creating proofs --------------------------------- ");
    let circuit = CircomCircuit::<Bn256> {
        signals: &ev_witness.signals,
        constraints: &ev_r1cs.constraints,
        phantom: PhantomData,
    };

    // Create proof
    let proof = create_random_proof(circuit, &params, rng).expect("cannot create proof");

    // Verify with valid public input
    let public_input = Fr::from_str("21");
    let success =
        verify_proof(&pvk, &proof, &[public_input.unwrap()]).expect("cannot verify proof");
    assert!(success);

    // Verify with invalid public input
    let public_input = Fr::from_str("22");
    let success =
        verify_proof(&pvk, &proof, &[public_input.unwrap()]).expect("cannot verify proof");
    assert!(!success);

    let public_input = public_inputs(&ev_witness.signals).unwrap();
    assert_eq!("[(\"main.c\", 21)]", format!("{:?}", shown(public_input)));
}

struct Shown(String);

impl std::fmt::Debug for Shown {
    fn fmt(&self, f: &mut std::fmt::Formatter) -> std::fmt::Result {
        f.write_str(&self.0)
    }
}

fn shown(values: Vec<(String, FS)>) -> Vec<(String, Shown)> {
    values.into_iter().map(|(name, v)| (name, Shown(v.to_string()))).collect()
}

fn evaluated(mode: Mode, inputs: &[(&str, u64)]) -> Evaluator<RamSignals, RamConstraints> {
    let mut ram = Ram::default();
    let mut ev =
        Evaluator::new(mode, ram.new_signals().unwrap(), ram.new_constraints().unwrap());
    for (name, value) in inputs {
        ev.set_deferred_value(name.to_string(), Value::from(*value));
    }
    ev.eval(&product()).unwrap();
    ev
}

fn setup(eval: &Evaluator<RamSignals, RamConstraints>) -> (Vec<u8>, Vec<String>) {
    let rng = &mut thread_rng();
    let circuit = CircomCircuit::<Bn256> {
        signals: &eval.signals,
        constraints: &eval.constraints,
        phantom: PhantomData,
    };
    let params = generate_random_parameters(circuit, rng).expect("cannot setup");
    let mut pk = write_constraints(&eval.constraints).unwrap();
    params.write(&mut pk).unwrap();
    let mut points = vec![
        parse_g1_hex(&params.vk.alpha_g1.to_string()).expect("a point of G1"),
        parse_g2_hex(&params.vk.beta_g2.to_string()).expect("a point of G2"),
        parse_g2_hex(&params.vk.gamma_g2.to_string()).expect("a point of G2"),
        parse_g2_hex(&params.vk.delta_g2.to_string()).expect("a point of G2"),
    ];
    for point in &params.vk.ic {
        points.push(parse_g1_hex(&point.to_string()).expect("a point of G1"));
    }
    (pk, points)
}

fn read_pk(pk: &[u8]) -> (RamConstraints, Parameters<Bn256>) {
    let (constraints, end) = read_constraints(pk).unwrap();
    (constraints, Parameters::read(&pk[end..], true).unwrap())
}

fn prove(signals: &RamSignals, pk: &[u8], out_proof: &mut Vec<u8>) -> Vec<(String, FS)> {
    let rng = &mut thread_rng();
    let (constraints, params) = read_pk(pk);
    check_constraints_eval_zero(&constraints, signals).expect("check failed");
    let circuit = CircomCircuit::<Bn256> { signals, constraints: &constraints, phantom: PhantomData };
    let proof = create_random_proof(circuit, &params, rng).expect("cannot create proof");
    proof.write(out_proof).unwrap();
    public_inputs(signals).unwrap()
}

fn verify(pk: &[u8], proof: &[u8], public_input: &Vec<FS>) -> bool {
    let proof: Proof<Bn256> = Proof::read(proof).unwrap();
    let (_, params) = read_pk(pk);
    let vk = prepare_verifying_key(&params.vk);
    let public_input = public_input
        .iter()
        .map(|n| Fr::from_str(&n.to_string()).expect("cannot parse fe"))
        .collect::<Vec<_>>();
    verify_proof(&vk, &proof, &public_input).unwrap()
}

#[test]
fn test_generate_helper() {
    let ev_r1cs = evaluated(Mode::GenConstraints, &[]);

    // setup -----------------------------------------------------
    let (pk, points) = setup(&ev_r1cs);
    // alpha, beta, gamma, delta, and one point for `one` and one for `main.c`
    assert_eq!(points.len(), 6);
    assert_eq!(points[0].len(), 66 + 2 + 66);
    assert_eq!(points[1].len(), 2 * (1 + 66 + 2 + 66 + 1) + 2);

    // Compute witness -------------------------------------------
    let ev_witness = evaluated(Mode::GenWitness, &[("main.a", 7), ("main.b", 3)]);
    check_constraints_eval_zero(&ev_r1cs.constraints, &ev_witness.signals)
        .expect("cannot check all constraints = 0");

    // Create proof
    let mut proof_out = Vec::new();
    let public_input = prove(&ev_witness.signals, &pk, &mut proof_out);
    assert_eq!("[(\"main.c\", 21)]", format!("{:?}", shown(public_input.clone())));

    // Verify with valid public input
    let public_input_values = public_input.into_iter().map(|(_, v)| v).collect::<Vec<_>>();
    assert_eq!(verify(&pk, &proof_out, &public_input_values), true);

    // Verify with invalid public input
    assert_eq!(verify(&pk, &proof_out, &vec![FS::from(22u64)]), false);
}
