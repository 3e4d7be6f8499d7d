//! What evaluation means: the state that the evaluator works on, and what
//! each expression and statement does to it in each of the two modes.
use crate::algebra::field;
use crate::algebra::field::FS;
use crate::algebra::lc;
use crate::algebra::lc::SignalId;
use crate::algebra::literal;
use crate::algebra::qeq::QeqView;
use crate::algebra::substitute;
use crate::algebra::value::ValueView;
use crate::evaluator::ast;
use crate::evaluator::ast::Expression;
use crate::evaluator::ast::Statement;
use crate::evaluator::ast::Target;
use crate::evaluator::ast::Template;
use crate::evaluator::error::Failure;
use crate::evaluator::scope;
use crate::evaluator::scope::FrameView;
use crate::storage::types;
use crate::storage::types::SignalType;
use crate::storage::types::SignalView;
use vstd::prelude::*;

verus! {

/// What the evaluator is run for.
#[derive(Clone, Copy, Debug, PartialEq, Eq, Structural)]
pub enum Mode {
    /// To emit the constraints of the circuit.
    GenConstraints,
    /// To compute the values of the signals from the values of the inputs.
    GenWitness,
}

/// What an evaluation works on: the two tables and the open scopes.
pub struct State {
    pub table: Seq<SignalView>,
    pub list: Seq<QeqView>,
    pub frames: Seq<FrameView>,
}

impl State {
    /// The path of the component under evaluation.
    pub open spec fn prefix(self) -> Seq<char> {
        self.frames.last().prefix
    }

    /// The state with a signal appended to the table.
    pub open spec fn with_signal(
        self,
        xtype: SignalType,
        full_name: Seq<char>,
        value: Option<ValueView>,
    ) -> State {
        State {
            table: self.table.push(
                SignalView { id: self.table.len() as usize, xtype, full_name, value },
            ),
            list: self.list,
            frames: self.frames,
        }
    }

    /// The state with an equation appended to the constraints.
    pub open spec fn with_constraint(self, q: QeqView) -> State {
        State { table: self.table, list: self.list.push(q), frames: self.frames }
    }

    /// The state with another value of a signal.
    pub open spec fn with_value(self, id: SignalId, value: ValueView) -> State {
        State {
            table: self.table.update(id as int, types::with_value(self.table[id as int], value)),
            list: self.list,
            frames: self.frames,
        }
    }

    /// The state with other scopes.
    pub open spec fn with_frames(self, frames: Seq<FrameView>) -> State {
        State { table: self.table, list: self.list, frames }
    }
}

/// How a run takes the tables on. Signals are appended, and a signal keeps
/// its identifier, name and type. Equations are appended, in canonical
/// form, and an equation stays as it is. Computing the witness, no equation
/// is appended.
pub open spec fn advances(
    mode: Mode,
    table: Seq<SignalView>,
    list: Seq<QeqView>,
    next_table: Seq<SignalView>,
    next_list: Seq<QeqView>,
) -> bool {
    &&& table.len() <= next_table.len()
    &&& forall|i: int|
        0 <= i < table.len() ==> (#[trigger] next_table[i]).id == table[i].id
            && next_table[i].full_name == table[i].full_name && next_table[i].xtype
            == table[i].xtype
    &&& list.len() <= next_list.len()
    &&& forall|i: int| 0 <= i < list.len() ==> #[trigger] next_list[i] == list[i]
    &&& forall|i: int| list.len() <= i < next_list.len() ==> (#[trigger] next_list[i]).canonical()
    &&& mode == Mode::GenWitness ==> next_list == list
}

/// A signal as a symbol: the combination that is this signal alone.
pub open spec fn symbol(id: SignalId) -> Seq<(SignalId, FS)> {
    seq![(id, FS::of(1))]
}

/// The signal of a full name.
pub open spec fn find(table: Seq<SignalView>, full_name: Seq<char>) -> Option<SignalView> {
    if types::has_name(table, full_name) {
        Some(table[types::index_of(table, full_name)])
    } else {
        None
    }
}

/// The short name of the signal that stands for a product: a tilde and the
/// signal's identifier.
pub open spec fn internal_name(id: SignalId) -> Seq<char> {
    seq!['~'] + literal::decimal_text(id as nat)
}

/// The number that the known terms come to under the table's values.
pub open spec fn number_of(terms: Seq<(SignalId, FS)>, table: Seq<SignalView>) -> Result<
    FS,
    Failure,
> {
    if substitute::assigned(terms, table) {
        Ok(FS::of(substitute::weighted_sum(terms, table)))
    } else {
        Err(Failure::NotFound)
    }
}

/// A signal of the component under evaluation, as a symbol.
pub open spec fn signal_symbol(st: State, full_name: Seq<char>) -> Result<ValueView, Failure> {
    match find(st.table, full_name) {
        Some(s) => Ok(ValueView::LinearCombination(symbol(s.id))),
        None => Err(Failure::NotFound),
    }
}

/// The full name of a signal of a sub-component, which the component under
/// evaluation must have declared.
pub open spec fn pin_name(st: State, component: Seq<char>, signal: Seq<char>) -> Result<
    Seq<char>,
    Failure,
> {
    if st.frames.last().components.contains(component) {
        Ok(scope::qualified(scope::qualified(st.prefix(), component), signal))
    } else {
        Err(Failure::InvalidSelector)
    }
}

/// A signal of a sub-component, as a symbol.
pub open spec fn pin_symbol(st: State, component: Seq<char>, signal: Seq<char>) -> Result<
    ValueView,
    Failure,
> {
    match pin_name(st, component, signal) {
        Ok(full_name) => signal_symbol(st, full_name),
        Err(k) => Err(k),
    }
}

/// A product of two combinations that both name a signal besides `one`: a
/// new internal signal stands for it. Emitting constraints, the equation
/// `a * b - t = 0` defines the signal `t`; computing the witness, the signal
/// takes the product of the two numbers.
pub open spec fn materialize(
    mode: Mode,
    a: Seq<(SignalId, FS)>,
    b: Seq<(SignalId, FS)>,
    st: State,
) -> Result<(ValueView, State), Failure> {
    let id = st.table.len() as usize;
    let full_name = scope::qualified(st.prefix(), internal_name(id));
    let r = ValueView::LinearCombination(symbol(id));
    match mode {
        Mode::GenConstraints => if types::has_name(st.table, full_name) {
            Err(Failure::AlreadyExists)
        } else {
            Ok(
                (
                    r,
                    st.with_signal(SignalType::Internal, full_name, None).with_constraint(
                        QeqView { a: lc::canon(a), b: lc::canon(b), c: lc::negation(symbol(id)) },
                    ),
                ),
            )
        },
        Mode::GenWitness => match (number_of(a, st.table), number_of(b, st.table)) {
            (Ok(x), Ok(y)) => if types::has_name(st.table, full_name) {
                Err(Failure::AlreadyExists)
            } else {
                Ok(
                    (
                        r,
                        st.with_signal(
                            SignalType::Internal,
                            full_name,
                            Some(ValueView::FieldScalar(FS::of((x@ * y@) % field::modulus()))),
                        ),
                    ),
                )
            },
            _ => Err(Failure::NotFound),
        },
    }
}

/// The product of two values: the value itself where it has degree one at
/// most, a new internal signal where both operands name signals.
pub open spec fn multiply(mode: Mode, x: ValueView, y: ValueView, st: State) -> Result<
    (ValueView, State),
    Failure,
> {
    match x.product(y) {
        Some(v) => Ok((v, st)),
        None => if x is Unknown || y is Unknown {
            Err(Failure::Algebra)
        } else {
            materialize(mode, x.terms(), y.terms(), st)
        },
    }
}

/// The value of an expression, and the state that its evaluation leaves.
/// Signals stand as symbols; a variable stands for its value.
pub open spec fn evaluate(mode: Mode, e: Expression, st: State) -> Result<
    (ValueView, State),
    Failure,
>
    decreases e,
{
    match e {
        Expression::Number(f) => Ok((ValueView::FieldScalar(f), st)),
        Expression::Variable(name) => match scope::value_of(st.frames, name@) {
            Some(v) => Ok((v, st)),
            None => match signal_symbol(st, scope::qualified(st.prefix(), name@)) {
                Ok(v) => Ok((v, st)),
                Err(k) => Err(k),
            },
        },
        Expression::Pin(component, signal) => match pin_symbol(st, component@, signal@) {
            Ok(v) => Ok((v, st)),
            Err(k) => Err(k),
        },
        Expression::Neg(x) => match evaluate(mode, *x, st) {
            Ok((v, st1)) => Ok((v.negation(), st1)),
            Err(k) => Err(k),
        },
        Expression::Add(l, r) => match evaluate(mode, *l, st) {
            Ok((x, st1)) => match evaluate(mode, *r, st1) {
                Ok((y, st2)) => Ok((x.sum(y), st2)),
                Err(k) => Err(k),
            },
            Err(k) => Err(k),
        },
        Expression::Sub(l, r) => match evaluate(mode, *l, st) {
            Ok((x, st1)) => match evaluate(mode, *r, st1) {
                Ok((y, st2)) => Ok((x.difference(y), st2)),
                Err(k) => Err(k),
            },
            Err(k) => Err(k),
        },
        Expression::Mul(l, r) => match evaluate(mode, *l, st) {
            Ok((x, st1)) => match evaluate(mode, *r, st1) {
                Ok((y, st2)) => multiply(mode, x, y, st2),
                Err(k) => Err(k),
            },
            Err(k) => Err(k),
        },
    }
}

/// What a run is given: its mode, the values of the inputs by full name,
/// and the templates of the circuit.
pub struct Env {
    pub mode: Mode,
    pub inputs: Map<Seq<char>, ValueView>,
    pub templates: Seq<Template>,
}

/// The types of the signals whose values are supplied from outside.
pub open spec fn is_input(xtype: SignalType) -> bool {
    xtype == SignalType::Input || xtype == SignalType::PublicInput || xtype
        == SignalType::PrivateInput
}

/// Appends a signal, unless its name is taken.
pub open spec fn insert(
    st: State,
    xtype: SignalType,
    full_name: Seq<char>,
    value: Option<ValueView>,
) -> Result<State, Failure> {
    if types::has_name(st.table, full_name) {
        Err(Failure::AlreadyExists)
    } else {
        Ok(st.with_signal(xtype, full_name, value))
    }
}

/// A signal's declaration. Computing the witness, an input takes the value
/// supplied for its full name, and must have one. Any other signal starts
/// without a value.
pub open spec fn declare_signal(
    mode: Mode,
    inputs: Map<Seq<char>, ValueView>,
    name: Seq<char>,
    xtype: SignalType,
    st: State,
) -> Result<State, Failure> {
    let full_name = scope::qualified(st.prefix(), name);
    if mode == Mode::GenWitness && is_input(xtype) {
        if inputs.contains_key(full_name) {
            insert(st, xtype, full_name, Some(inputs[full_name]))
        } else {
            Err(Failure::NotFound)
        }
    } else {
        insert(st, xtype, full_name, None)
    }
}

/// The signal that an assignment is made to.
pub open spec fn target_signal(st: State, target: Target) -> Result<SignalView, Failure> {
    let full_name = match target {
        Target::Signal(name) => Ok(scope::qualified(st.prefix(), name@)),
        Target::Pin(component, signal) => pin_name(st, component@, signal@),
    };
    match full_name {
        Ok(n) => match find(st.table, n) {
            Some(s) => if s.xtype == SignalType::Component {
                Err(Failure::InvalidType)
            } else {
                Ok(s)
            },
            None => Err(Failure::NotFound),
        },
        Err(k) => Err(k),
    }
}

/// What one side of a constraint reduces to: a value of degree one at most,
/// or the product of two combinations.
pub enum Form {
    Linear(ValueView),
    Product(Seq<(SignalId, FS)>, Seq<(SignalId, FS)>),
}

/// Reduces an expression to a form that one equation can hold. A product at
/// the top of the expression is kept as it is; any product below it has
/// become an internal signal.
pub open spec fn reduce(mode: Mode, e: Expression, st: State) -> Result<(Form, State), Failure> {
    match e {
        Expression::Mul(l, r) => match evaluate(mode, *l, st) {
            Ok((x, st1)) => match evaluate(mode, *r, st1) {
                Ok((y, st2)) => match x.product(y) {
                    Some(v) => Ok((Form::Linear(v), st2)),
                    None => if x is Unknown || y is Unknown {
                        Err(Failure::CannotGenerateConstrain)
                    } else {
                        Ok((Form::Product(x.terms(), y.terms()), st2))
                    },
                },
                Err(k) => Err(k),
            },
            Err(k) => Err(k),
        },
        _ => match evaluate(mode, e, st) {
            Ok((v, st1)) => if v is Unknown {
                Err(Failure::CannotGenerateConstrain)
            } else {
                Ok((Form::Linear(v), st1))
            },
            Err(k) => Err(k),
        },
    }
}

/// The equation `form - rhs = 0`. A linear form is written `one * (form -
/// rhs) + 0`, a product `a * b + (-rhs)`.
pub open spec fn equation(form: Form, rhs: Seq<(SignalId, FS)>) -> QeqView {
    match form {
        Form::Linear(v) => QeqView {
            a: symbol(lc::ONE),
            b: lc::difference(v.terms(), rhs),
            c: Seq::empty(),
        },
        Form::Product(a, b) => QeqView { a: lc::canon(a), b: lc::canon(b), c: lc::negation(rhs) },
    }
}

/// The number of a known value under the table's values.
pub open spec fn known_number(v: ValueView, table: Seq<SignalView>) -> Result<FS, Failure> {
    match v {
        ValueView::FieldScalar(f) => Ok(f),
        ValueView::LinearCombination(terms) => number_of(terms, table),
        ValueView::Unknown => Err(Failure::NotFound),
    }
}

/// The number of a form under the table's values.
pub open spec fn form_number(form: Form, table: Seq<SignalView>) -> Result<FS, Failure> {
    match form {
        Form::Linear(v) => known_number(v, table),
        Form::Product(a, b) => match (number_of(a, table), number_of(b, table)) {
            (Ok(x), Ok(y)) => Ok(FS::of((x@ * y@) % field::modulus())),
            _ => Err(Failure::NotFound),
        },
    }
}

/// `target <== value`. Emitting constraints, the equation `value - target
/// = 0` is pushed, and the target records a value of degree one at most.
/// Computing the witness, the target takes the number of the value.
pub open spec fn constrained_assign(mode: Mode, target: Target, value: Expression, st: State) -> Result<
    State,
    Failure,
> {
    match target_signal(st, target) {
        Err(k) => Err(k),
        Ok(t) => match reduce(mode, value, st) {
            Err(k) => Err(k),
            Ok((form, st1)) => match mode {
                Mode::GenConstraints => {
                    let st2 = st1.with_constraint(equation(form, symbol(t.id)));
                    match form {
                        Form::Linear(v) => Ok(st2.with_value(t.id, v)),
                        Form::Product(_, _) => Ok(st2),
                    }
                },
                Mode::GenWitness => match form_number(form, st1.table) {
                    Ok(n) => Ok(st1.with_value(t.id, ValueView::FieldScalar(n))),
                    Err(k) => Err(k),
                },
            },
        },
    }
}

/// The number of an expression under the table's values, with no effect on
/// the state: products are computed in the field.
pub open spec fn number(e: Expression, st: State) -> Result<FS, Failure>
    decreases e,
{
    match e {
        Expression::Number(f) => Ok(f),
        Expression::Variable(name) => match scope::value_of(st.frames, name@) {
            Some(v) => known_number(v, st.table),
            None => match signal_symbol(st, scope::qualified(st.prefix(), name@)) {
                Ok(v) => known_number(v, st.table),
                Err(k) => Err(k),
            },
        },
        Expression::Pin(component, signal) => match pin_symbol(st, component@, signal@) {
            Ok(v) => known_number(v, st.table),
            Err(k) => Err(k),
        },
        Expression::Neg(x) => match number(*x, st) {
            Ok(n) => Ok(FS::of(((-(n@ as int)) % (field::modulus() as int)) as nat)),
            Err(k) => Err(k),
        },
        Expression::Add(l, r) => match number(*l, st) {
            Ok(x) => match number(*r, st) {
                Ok(y) => Ok(FS::of((x@ + y@) % field::modulus())),
                Err(k) => Err(k),
            },
            Err(k) => Err(k),
        },
        Expression::Sub(l, r) => match number(*l, st) {
            Ok(x) => match number(*r, st) {
                Ok(y) => Ok(FS::of(((x@ - y@) % (field::modulus() as int)) as nat)),
                Err(k) => Err(k),
            },
            Err(k) => Err(k),
        },
        Expression::Mul(l, r) => match number(*l, st) {
            Ok(x) => match number(*r, st) {
                Ok(y) => Ok(FS::of((x@ * y@) % field::modulus())),
                Err(k) => Err(k),
            },
            Err(k) => Err(k),
        },
    }
}

/// `target <-- value`. Emitting constraints, nothing. Computing the
/// witness, the target takes the number of the value.
pub open spec fn hint(mode: Mode, target: Target, value: Expression, st: State) -> Result<
    State,
    Failure,
> {
    match mode {
        Mode::GenConstraints => Ok(st),
        Mode::GenWitness => match target_signal(st, target) {
            Err(k) => Err(k),
            Ok(t) => match number(value, st) {
                Ok(n) => Ok(st.with_value(t.id, ValueView::FieldScalar(n))),
                Err(k) => Err(k),
            },
        },
    }
}

/// `left === right`. Emitting constraints, the equation `left - right = 0`
/// is pushed. Computing the witness, both sides are evaluated and no signal
/// changes.
pub open spec fn constrain(mode: Mode, left: Expression, right: Expression, st: State) -> Result<
    State,
    Failure,
> {
    match reduce(mode, left, st) {
        Err(k) => Err(k),
        Ok((form, st1)) => match evaluate(mode, right, st1) {
            Err(k) => Err(k),
            Ok((y, st2)) => if y is Unknown {
                Err(Failure::CannotGenerateConstrain)
            } else {
                match mode {
                    Mode::GenConstraints => Ok(
                        st2.with_constraint(equation(form, lc::canon(y.terms()))),
                    ),
                    Mode::GenWitness => Ok(st2),
                }
            },
        },
    }
}

/// Declares a variable in the innermost scope.
pub open spec fn bind(st: State, name: Seq<char>, v: ValueView) -> Result<State, Failure> {
    if scope::slot_of(st.frames.last().variables, name) is Some {
        Err(Failure::AlreadyExists)
    } else {
        Ok(st.with_frames(scope::with_variable(st.frames, name, v)))
    }
}

/// `var name;` or `var name = init;`
pub open spec fn declare_variable(mode: Mode, name: Seq<char>, init: Option<Expression>, st: State) -> Result<
    State,
    Failure,
> {
    match init {
        Some(e) => match evaluate(mode, e, st) {
            Ok((v, st1)) => bind(st1, name, v),
            Err(k) => Err(k),
        },
        None => bind(st, name, ValueView::Unknown),
    }
}

/// `name = value;`
pub open spec fn assign_variable(mode: Mode, name: Seq<char>, value: Expression, st: State) -> Result<
    State,
    Failure,
> {
    match evaluate(mode, value, st) {
        Ok((v, st1)) => match scope::resolve(st1.frames, name) {
            Some((f, k)) => Ok(st1.with_frames(scope::with_value(st1.frames, f, k, v))),
            None => Err(Failure::NotFound),
        },
        Err(k) => Err(k),
    }
}

/// What a statement does to the state. `depth` bounds how deep components
/// may be nested from here.
pub open spec fn execute(env: Env, s: Statement, st: State, depth: nat) -> Result<State, Failure>
    decreases depth, 1int,
{
    match s {
        Statement::Signal { name, xtype } => declare_signal(env.mode, env.inputs, name@, xtype, st),
        Statement::Variable { name, init } => declare_variable(env.mode, name@, init, st),
        Statement::Assign { name, value } => assign_variable(env.mode, name@, value, st),
        Statement::Component { name, template, arguments } => instantiate(
            env,
            name@,
            template@,
            arguments@,
            st,
            depth,
        ),
        Statement::ConstrainedAssign { target, value } => constrained_assign(
            env.mode,
            target,
            value,
            st,
        ),
        Statement::Hint { target, value } => hint(env.mode, target, value, st),
        Statement::Constrain { left, right } => constrain(env.mode, left, right, st),
    }
}

/// The values of the arguments of an instance, from an index on, each
/// evaluated in the scope of the instantiating component. An argument must
/// be a constant.
pub open spec fn arguments(mode: Mode, args: Seq<Expression>, from: int, st: State) -> Result<
    (Seq<ValueView>, State),
    Failure,
>
    decreases args.len() - from,
{
    if from < 0 || from >= args.len() {
        Ok((Seq::empty(), st))
    } else {
        match evaluate(mode, args[from], st) {
            Ok((v, st1)) => if v.constant() {
                match arguments(mode, args, from + 1, st1) {
                    Ok((vs, st2)) => Ok((seq![v] + vs, st2)),
                    Err(k) => Err(k),
                }
            } else {
                Err(Failure::InvalidParameter)
            },
            Err(k) => Err(k),
        }
    }
}

/// Declares the parameters from an index on as variables of the innermost
/// scope, each with the value of its argument.
pub open spec fn bind_parameters(st: State, names: Seq<String>, values: Seq<ValueView>, from: int) -> Result<
    State,
    Failure,
>
    decreases names.len() - from,
{
    if from < 0 || from >= names.len() {
        Ok(st)
    } else {
        match bind(st, names[from]@, values[from]) {
            Ok(st1) => bind_parameters(st1, names, values, from + 1),
            Err(k) => Err(k),
        }
    }
}

/// `component name = template(arguments);`: the arguments are evaluated,
/// the component is declared in the scope of the instantiating component,
/// and the template's statements run in a scope of their own, whose prefix
/// is the component's path and whose first variables are the template's
/// parameters.
pub open spec fn instantiate(
    env: Env,
    name: Seq<char>,
    template: Seq<char>,
    args: Seq<Expression>,
    st: State,
    depth: nat,
) -> Result<State, Failure>
    decreases depth, 0int,
{
    match ast::template_index(env.templates, template) {
        None => Err(Failure::NotFound),
        Some(t) => if depth == 0 {
            Err(Failure::NotYetImplemented)
        } else if env.templates[t].parameters@.len() != args.len() {
            Err(Failure::InvalidParameter)
        } else {
            match arguments(env.mode, args, 0, st) {
                Err(k) => Err(k),
                Ok((values, st1)) => if st1.frames.last().components.contains(name) {
                    Err(Failure::AlreadyExists)
                } else {
                    match bind_parameters(
                        st1.with_frames(
                            scope::with_frame(scope::with_component(st1.frames, name), name),
                        ),
                        env.templates[t].parameters@,
                        values,
                        0,
                    ) {
                        Err(k) => Err(k),
                        Ok(st2) => match run(
                            env,
                            env.templates[t].body@,
                            0,
                            st2,
                            (depth - 1) as nat,
                        ) {
                            Ok(st3) => Ok(st3.with_frames(st3.frames.drop_last())),
                            Err(k) => Err(k),
                        },
                    }
                },
            }
        },
    }
}

/// What the statements from `from` on do to the state, in order.
pub open spec fn run(env: Env, body: Seq<Statement>, from: int, st: State, depth: nat) -> Result<
    State,
    Failure,
>
    decreases depth, 2 + body.len() - from,
{
    if from < 0 || from >= body.len() {
        Ok(st)
    } else {
        match execute(env, body[from], st, depth) {
            Ok(st1) => run(env, body, from + 1, st1, depth),
            Err(k) => Err(k),
        }
    }
}

} // verus!
