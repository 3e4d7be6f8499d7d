//! The witness of a circuit satisfies the constraints of the circuit. Let
//! one run emit the constraints and another compute the witness, over the
//! same templates and in step with each other. Where the witness is
//! computed with care, every signal taking its number once and from its
//! assignment, all equations that the one run emits hold under the numbers
//! that the other gives the signals.
use crate::algebra::substitute;
use crate::algebra::value::ValueView;
use crate::evaluator::ast;
use crate::evaluator::ast::Expression;
use crate::evaluator::ast::Statement;
use crate::evaluator::ast::Target;
use crate::evaluator::check;
use crate::evaluator::scope;
use crate::evaluator::semantics;
use crate::evaluator::semantics::Env;
use crate::evaluator::semantics::Mode;
use crate::evaluator::semantics::State;
use crate::evaluator::soundness;
use crate::storage::types;
use crate::storage::types::SignalType;
use crate::storage::types::SignalView;
use vstd::prelude::*;

verus! {

/// The two runs are in step: they have come equally far, the signal `one`
/// is in its place in the witness, and the equations emitted from `base`
/// on hold under the witness.
pub open spec fn in_step(c: State, w: State, base: int) -> bool {
    &&& soundness::agree(c, w)
    &&& soundness::one_in_place(w.table)
    &&& 0 <= base <= c.list.len()
    &&& soundness::hold_from(c.list, base, w.table)
}

/// The two runs go over the same circuit, one in each mode.
pub open spec fn paired(constraints: Env, witness: Env) -> bool {
    &&& constraints.mode == Mode::GenConstraints
    &&& witness.mode == Mode::GenWitness
    &&& constraints.templates == witness.templates
}

/// The target of an assignment has no number yet.
pub open spec fn fresh_target(w: State, target: Target) -> bool {
    semantics::target_signal(w, target) matches Ok(t) && substitute::scalar_of(w.table, t.id)
        is None
}

/// A statement computes the witness with care: an assignment gives a
/// number to a signal that has none yet, a component is instantiated with
/// care, and no equation is stated between expressions. The identifiers
/// must not run out.
pub open spec fn careful(env: Env, s: Statement, w: State, depth: nat) -> bool
    decreases depth, 1int,
{
    &&& semantics::execute(env, s, w, depth) matches Ok(w1) ==> w1.table.len() <= usize::MAX
    &&& match s {
        Statement::ConstrainedAssign { target, value } => fresh_target(w, target),
        Statement::Hint { target, value } => fresh_target(w, target),
        Statement::Constrain { left, right } => false,
        Statement::Component { name, template, arguments } => careful_instance(
            env,
            name@,
            template@,
            arguments@,
            w,
            depth,
        ),
        _ => true,
    }
}

/// A component is instantiated with care: its statements run with care.
pub open spec fn careful_instance(
    env: Env,
    name: Seq<char>,
    template: Seq<char>,
    args: Seq<Expression>,
    w: State,
    depth: nat,
) -> bool
    decreases depth, 0int,
{
    match ast::template_index(env.templates, template) {
        None => true,
        Some(t) => if depth == 0 || env.templates[t].parameters@.len() != args.len() {
            true
        } else {
            match semantics::arguments(env.mode, args, 0, w) {
                Err(k) => true,
                Ok((values, w1)) => w1.table.len() <= usize::MAX && (if w1.frames.last(
                ).components.contains(name) {
                    true
                } else {
                    match semantics::bind_parameters(
                        w1.with_frames(
                            scope::with_frame(scope::with_component(w1.frames, name), name),
                        ),
                        env.templates[t].parameters@,
                        values,
                        0,
                    ) {
                        Err(k) => true,
                        Ok(w2) => careful_run(env, env.templates[t].body@, 0, w2, (depth - 1) as nat),
                    }
                }),
            }
        },
    }
}

/// The statements from `from` on run with care, each from the state that
/// the statements before it have left.
pub open spec fn careful_run(env: Env, body: Seq<Statement>, from: int, w: State, depth: nat) -> bool
    decreases depth, 2 + body.len() - from,
{
    if from < 0 || from >= body.len() {
        true
    } else {
        careful(env, body[from], w, depth) && (match semantics::execute(env, body[from], w, depth) {
            Ok(w1) => careful_run(env, body, from + 1, w1, depth),
            Err(k) => true,
        })
    }
}

/// A signal's declaration keeps the runs in step.
proof fn lemma_declare_signal(
    constraints: Env,
    witness: Env,
    name: Seq<char>,
    xtype: SignalType,
    c: State,
    w: State,
    base: int,
)
    requires
        paired(constraints, witness),
        in_step(c, w, base),
        semantics::declare_signal(constraints.mode, constraints.inputs, name, xtype, c) is Ok,
        semantics::declare_signal(witness.mode, witness.inputs, name, xtype, w) matches Ok(w1)
            && w1.table.len() <= usize::MAX,
    ensures
        in_step(
            semantics::declare_signal(constraints.mode, constraints.inputs, name, xtype, c)->Ok_0,
            semantics::declare_signal(witness.mode, witness.inputs, name, xtype, w)->Ok_0,
            base,
        ),
        semantics::declare_signal(witness.mode, witness.inputs, name, xtype, w)->Ok_0.list == w.list,
{
    let c1 = semantics::declare_signal(constraints.mode, constraints.inputs, name, xtype, c)->Ok_0;
    let w1 = semantics::declare_signal(witness.mode, witness.inputs, name, xtype, w)->Ok_0;
    assert(c1.table.drop_last() =~= c.table);
    assert(w1.table.drop_last() =~= w.table);
    lemma_find_alike(c, w, scope::qualified(c.prefix(), name));
    lemma_pushed(c.table, c1.table);
    lemma_pushed(w.table, w1.table);
    assert(soundness::aligned(c1.table, w1.table)) by {
        assert forall|i: int| 0 <= i < c1.table.len() implies (#[trigger] c1.table[i]).id
            == w1.table[i].id && c1.table[i].full_name == w1.table[i].full_name
            && c1.table[i].xtype == w1.table[i].xtype by {
            if i < c.table.len() {
                assert(c1.table[i] == c.table[i]);
                assert(w1.table[i] == w.table[i]);
            }
        }
    }
    soundness::lemma_hold_stays(c.list, base, w.table, w1.table);
}

/// Runs in step find the same names taken.
proof fn lemma_find_alike(c: State, w: State, name: Seq<char>)
    requires
        soundness::agree(c, w),
    ensures
        types::has_name(c.table, name) == types::has_name(w.table, name),
{
    soundness::lemma_find_aligned(c.table, w.table, name);
}

/// A table with one more signal, under a name that was free, is as well
/// formed as it was, and keeps the numbers.
proof fn lemma_pushed(table: Seq<SignalView>, next: Seq<SignalView>)
    requires
        soundness::well_formed(table),
        next.len() == table.len() + 1,
        next.len() <= usize::MAX,
        next.drop_last() == table,
        next.last().id == table.len(),
        !types::has_name(table, next.last().full_name),
    ensures
        soundness::well_formed(next),
        soundness::keeps(table, next),
{
    assert forall|i: int| 0 <= i < table.len() implies #[trigger] next[i] == table[i] by {
        assert(next.drop_last()[i] == next[i]);
    }
    assert forall|i: int| 0 <= i < next.len() implies (#[trigger] next[i]).id == i by {
        if i < table.len() {
            assert(next[i] == table[i]);
        }
    }
    assert forall|i: int, j: int| 0 <= i < j < next.len() implies (#[trigger] next[i]).full_name != (
    #[trigger] next[j]).full_name by {
        assert(next[i] == table[i]);
        if j < table.len() {
            assert(next[j] == table[j]);
        }
    }
    assert forall|id: usize| id < table.len() implies substitute::scalar_of(next, id)
        == substitute::scalar_of(table, id) by {
        assert(next[id as int] == table[id as int]);
    }
}

/// The evaluation of an expression keeps the runs in step.
proof fn lemma_evaluate_in_step(e: Expression, c: State, w: State, base: int)
    requires
        in_step(c, w, base),
        soundness::both_evaluate(e, c, w),
    ensures
        ({
            let (vc, c1) = semantics::evaluate(Mode::GenConstraints, e, c)->Ok_0;
            let (vw, w1) = semantics::evaluate(Mode::GenWitness, e, w)->Ok_0;
            &&& vc == vw
            &&& in_step(c1, w1, base)
            &&& w1.list == w.list
            &&& soundness::keeps(w.table, w1.table)
        }),
{
    let c1 = semantics::evaluate(Mode::GenConstraints, e, c)->Ok_0.1;
    let w1 = semantics::evaluate(Mode::GenWitness, e, w)->Ok_0.1;
    soundness::lemma_evaluate_agrees(e, c, w);
    soundness::lemma_hold_extends(c.list, c1.list, base, w.table, w1.table);
}

/// A variable's declaration keeps the runs in step.
proof fn lemma_declare_variable(
    name: Seq<char>,
    init: Option<Expression>,
    c: State,
    w: State,
    base: int,
)
    requires
        in_step(c, w, base),
        semantics::declare_variable(Mode::GenConstraints, name, init, c) is Ok,
        semantics::declare_variable(Mode::GenWitness, name, init, w) matches Ok(w1)
            && w1.table.len() <= usize::MAX,
    ensures
        in_step(
            semantics::declare_variable(Mode::GenConstraints, name, init, c)->Ok_0,
            semantics::declare_variable(Mode::GenWitness, name, init, w)->Ok_0,
            base,
        ),
        semantics::declare_variable(Mode::GenWitness, name, init, w)->Ok_0.list == w.list,
{
    match init {
        Some(e) => {
            lemma_evaluate_in_step(e, c, w, base);
        },
        None => {},
    }
}

/// An assignment to a variable keeps the runs in step.
proof fn lemma_assign_variable(name: Seq<char>, value: Expression, c: State, w: State, base: int)
    requires
        in_step(c, w, base),
        semantics::assign_variable(Mode::GenConstraints, name, value, c) is Ok,
        semantics::assign_variable(Mode::GenWitness, name, value, w) matches Ok(w1)
            && w1.table.len() <= usize::MAX,
    ensures
        in_step(
            semantics::assign_variable(Mode::GenConstraints, name, value, c)->Ok_0,
            semantics::assign_variable(Mode::GenWitness, name, value, w)->Ok_0,
            base,
        ),
        semantics::assign_variable(Mode::GenWitness, name, value, w)->Ok_0.list == w.list,
{
    lemma_evaluate_in_step(value, c, w, base);
}

/// A hint keeps the runs in step, where its target has no number yet.
proof fn lemma_hint(target: Target, value: Expression, c: State, w: State, base: int)
    requires
        in_step(c, w, base),
        fresh_target(w, target),
        semantics::hint(Mode::GenWitness, target, value, w) is Ok,
    ensures
        in_step(c, semantics::hint(Mode::GenWitness, target, value, w)->Ok_0, base),
        semantics::hint(Mode::GenWitness, target, value, w)->Ok_0.list == w.list,
{
    let t = semantics::target_signal(w, target)->Ok_0.id;
    let w1 = semantics::hint(Mode::GenWitness, target, value, w)->Ok_0;
    soundness::lemma_target_agrees(target, c, w);
    soundness::lemma_number_given(c.list, base, t, w.table, w1.table);
    assert(soundness::aligned(c.table, w1.table)) by {
        assert forall|i: int| 0 <= i < c.table.len() implies (#[trigger] c.table[i]).id
            == w1.table[i].id && c.table[i].full_name == w1.table[i].full_name && c.table[i].xtype
            == w1.table[i].xtype by {
            assert(w1.table[i].id == w.table[i].id);
        }
    }
}

/// The arguments of an instance keep the runs in step, and have the same
/// values in both.
proof fn lemma_arguments(args: Seq<Expression>, from: int, c: State, w: State, base: int)
    requires
        in_step(c, w, base),
        0 <= from,
        semantics::arguments(Mode::GenConstraints, args, from, c) is Ok,
        semantics::arguments(Mode::GenWitness, args, from, w) matches Ok((vs, w1))
            && w1.table.len() <= usize::MAX,
    ensures
        ({
            let (vc, c1) = semantics::arguments(Mode::GenConstraints, args, from, c)->Ok_0;
            let (vw, w1) = semantics::arguments(Mode::GenWitness, args, from, w)->Ok_0;
            &&& vc == vw
            &&& in_step(c1, w1, base)
            &&& w1.list == w.list
        }),
    decreases args.len() - from,
{
    if from < args.len() {
        let w1 = semantics::evaluate(Mode::GenWitness, args[from], w)->Ok_0.1;
        let c1 = semantics::evaluate(Mode::GenConstraints, args[from], c)->Ok_0.1;
        lemma_arguments_grow(args, from + 1, w1);
        lemma_evaluate_in_step(args[from], c, w, base);
        lemma_arguments(args, from + 1, c1, w1, base);
    }
}

/// The evaluation of arguments takes no signal from the table.
proof fn lemma_arguments_grow(args: Seq<Expression>, from: int, w: State)
    requires
        0 <= from,
    ensures
        semantics::arguments(Mode::GenWitness, args, from, w) matches Ok((vs, w1))
            ==> w.table.len() <= w1.table.len(),
    decreases args.len() - from,
{
    if from < args.len() {
        soundness::lemma_evaluate_grows(Mode::GenWitness, args[from], w);
        if let Ok((v, w1)) = semantics::evaluate(Mode::GenWitness, args[from], w) {
            lemma_arguments_grow(args, from + 1, w1);
        }
    }
}

/// The parameters are bound alike in both runs.
proof fn lemma_bind_parameters(
    names: Seq<String>,
    values: Seq<ValueView>,
    from: int,
    c: State,
    w: State,
    base: int,
)
    requires
        in_step(c, w, base),
        0 <= from,
        semantics::bind_parameters(c, names, values, from) is Ok,
        semantics::bind_parameters(w, names, values, from) is Ok,
    ensures
        in_step(
            semantics::bind_parameters(c, names, values, from)->Ok_0,
            semantics::bind_parameters(w, names, values, from)->Ok_0,
            base,
        ),
        semantics::bind_parameters(w, names, values, from)->Ok_0.list == w.list,
        semantics::bind_parameters(w, names, values, from)->Ok_0.table == w.table,
    decreases names.len() - from,
{
    if from < names.len() {
        let c1 = semantics::bind(c, names[from]@, values[from])->Ok_0;
        let w1 = semantics::bind(w, names[from]@, values[from])->Ok_0;
        lemma_bind_parameters(names, values, from + 1, c1, w1, base);
    }
}

/// A statement keeps the runs in step, where the witness is computed with
/// care.
pub proof fn lemma_execute(
    constraints: Env,
    witness: Env,
    s: Statement,
    c: State,
    w: State,
    depth: nat,
    base: int,
)
    requires
        paired(constraints, witness),
        in_step(c, w, base),
        semantics::execute(constraints, s, c, depth) is Ok,
        semantics::execute(witness, s, w, depth) is Ok,
        careful(witness, s, w, depth),
    ensures
        in_step(
            semantics::execute(constraints, s, c, depth)->Ok_0,
            semantics::execute(witness, s, w, depth)->Ok_0,
            base,
        ),
        semantics::execute(witness, s, w, depth)->Ok_0.list == w.list,
    decreases depth, 1int,
{
    match s {
        Statement::Signal { name, xtype } => {
            lemma_declare_signal(constraints, witness, name@, xtype, c, w, base);
        },
        Statement::Variable { name, init } => {
            lemma_declare_variable(name@, init, c, w, base);
        },
        Statement::Assign { name, value } => {
            lemma_assign_variable(name@, value, c, w, base);
        },
        Statement::Component { name, template, arguments } => {
            lemma_instantiate(constraints, witness, name@, template@, arguments@, c, w, depth, base);
        },
        Statement::ConstrainedAssign { target, value } => {
            soundness::lemma_constrained_assignment_sound(target, value, c, w, base);
        },
        Statement::Hint { target, value } => {
            lemma_hint(target, value, c, w, base);
        },
        Statement::Constrain { left, right } => {},
    }
}

/// The instantiation of a component keeps the runs in step.
pub proof fn lemma_instantiate(
    constraints: Env,
    witness: Env,
    name: Seq<char>,
    template: Seq<char>,
    args: Seq<Expression>,
    c: State,
    w: State,
    depth: nat,
    base: int,
)
    requires
        paired(constraints, witness),
        in_step(c, w, base),
        semantics::instantiate(constraints, name, template, args, c, depth) is Ok,
        semantics::instantiate(witness, name, template, args, w, depth) matches Ok(w1)
            && w1.table.len() <= usize::MAX,
        careful_instance(witness, name, template, args, w, depth),
    ensures
        in_step(
            semantics::instantiate(constraints, name, template, args, c, depth)->Ok_0,
            semantics::instantiate(witness, name, template, args, w, depth)->Ok_0,
            base,
        ),
        semantics::instantiate(witness, name, template, args, w, depth)->Ok_0.list == w.list,
    decreases depth, 0int,
{
    let t = ast::template_index(constraints.templates, template)->0;
    let body = constraints.templates[t].body@;
    let (values, c1) = semantics::arguments(Mode::GenConstraints, args, 0, c)->Ok_0;
    let (vw, w1) = semantics::arguments(Mode::GenWitness, args, 0, w)->Ok_0;
    lemma_arguments(args, 0, c, w, base);
    let c2 = c1.with_frames(scope::with_frame(scope::with_component(c1.frames, name), name));
    let w2 = w1.with_frames(scope::with_frame(scope::with_component(w1.frames, name), name));
    assert(in_step(c2, w2, base));
    lemma_bind_parameters(constraints.templates[t].parameters@, values, 0, c2, w2, base);
    let c3 = semantics::bind_parameters(c2, constraints.templates[t].parameters@, values, 0)->Ok_0;
    let w3 = semantics::bind_parameters(w2, constraints.templates[t].parameters@, values, 0)->Ok_0;
    lemma_run(constraints, witness, body, 0, c3, w3, (depth - 1) as nat, base);
}

/// The statements of a template keep the runs in step, where the witness is
/// computed with care: the witness satisfies the constraints.
pub proof fn lemma_run(
    constraints: Env,
    witness: Env,
    body: Seq<Statement>,
    from: int,
    c: State,
    w: State,
    depth: nat,
    base: int,
)
    requires
        paired(constraints, witness),
        in_step(c, w, base),
        semantics::run(constraints, body, from, c, depth) is Ok,
        semantics::run(witness, body, from, w, depth) is Ok,
        careful_run(witness, body, from, w, depth),
    ensures
        in_step(
            semantics::run(constraints, body, from, c, depth)->Ok_0,
            semantics::run(witness, body, from, w, depth)->Ok_0,
            base,
        ),
        semantics::run(witness, body, from, w, depth)->Ok_0.list == w.list,
    decreases depth, 2 + body.len() - from,
{
    if 0 <= from < body.len() {
        let c1 = semantics::execute(constraints, body[from], c, depth)->Ok_0;
        let w1 = semantics::execute(witness, body[from], w, depth)->Ok_0;
        lemma_execute(constraints, witness, body[from], c, w, depth, base);
        lemma_run(constraints, witness, body, from + 1, c1, w1, depth, base);
    }
}

/// The witness of a circuit satisfies the constraints of the circuit. Let
/// two runs start in step, with every equation of the one holding under the
/// other, and let both walk the same circuit to the end, the witness
/// computed with care. Then every equation in the constraint table holds
/// under the values in the witness's signal table: the check of the
/// witness against the constraints finds nothing.
pub proof fn lemma_witness_satisfies(
    constraints: Env,
    witness: Env,
    main: Seq<char>,
    c: State,
    w: State,
    depth: nat,
)
    requires
        paired(constraints, witness),
        in_step(c, w, 0),
        semantics::instantiate(constraints, "main"@, main, Seq::empty(), c, depth) is Ok,
        semantics::instantiate(witness, "main"@, main, Seq::empty(), w, depth) matches Ok(w1)
            && w1.table.len() <= usize::MAX,
        careful_instance(witness, "main"@, main, Seq::empty(), w, depth),
    ensures
        check::all_satisfied(
            semantics::instantiate(constraints, "main"@, main, Seq::empty(), c, depth)->Ok_0.list,
            semantics::instantiate(witness, "main"@, main, Seq::empty(), w, depth)->Ok_0.table,
            semantics::instantiate(
                constraints,
                "main"@,
                main,
                Seq::empty(),
                c,
                depth,
            )->Ok_0.list.len() as int,
        ),
{
    lemma_instantiate(constraints, witness, "main"@, main, Seq::empty(), c, w, depth, 0);
}

} // verus!
