//! The evaluator itself.
use crate::algebra::field::FS;
use crate::algebra::lc;
use crate::algebra::lc::SignalId;
use crate::algebra::lc::LC;
use crate::algebra::qeq::QEQ;
use crate::algebra::value::Value;
use crate::algebra::value::ValueView;
use crate::evaluator::ast::Circuit;
use crate::evaluator::ast::Expression;
use crate::evaluator::ast::Statement;
use crate::evaluator::ast::Target;
use crate::evaluator::ast::Template;
use crate::evaluator::error::Error;
use crate::evaluator::error::Failure;
use crate::evaluator::scope;
use crate::evaluator::scope::Scope;
use crate::evaluator::semantics;
use crate::evaluator::semantics::Mode;
use crate::evaluator::semantics::State;
use crate::evaluator::semantics::Env;
use crate::evaluator::semantics::Form;
use crate::storage::types::Constraints;
use crate::storage::types::Signal;
use crate::storage::types::SignalType;
use crate::storage::types::Signals;
use vstd::hash_map::StringHashMap;
use vstd::prelude::*;
use vstd::string::*;

verus! {

/// One run over a circuit, in one mode, with the two tables that it fills.
pub struct Evaluator<S: Signals, C: Constraints> {
    pub mode: Mode,
    pub signals: S,
    pub constraints: C,
    /// The values supplied for the inputs, by full name.
    pub deferred: StringHashMap<Value>,
}

impl<S: Signals, C: Constraints> Evaluator<S, C> {
    /// The tables are well formed.
    pub open spec fn inv(&self) -> bool {
        self.signals.inv() && self.constraints.inv()
    }

    /// Neither table's store can fail.
    pub open spec fn infallible(&self) -> bool {
        self.signals.infallible() && self.constraints.infallible()
    }

    /// The values supplied for the inputs, by full name.
    pub open spec fn inputs(&self) -> Map<Seq<char>, ValueView> {
        Map::new(|k: Seq<char>| self.deferred@.contains_key(k), |k: Seq<char>| self.deferred@[k]@)
    }

    /// The state of the run, under given scopes.
    pub open spec fn state(&self, scope: &Scope) -> State {
        State { table: self.signals.table(), list: self.constraints.list(), frames: scope@ }
    }

    /// Nothing of the run has changed but the tables.
    pub open spec fn same_run(&self, other: &Self) -> bool {
        &&& self.mode == other.mode
        &&& self.inputs() == other.inputs()
        &&& self.infallible() == other.infallible()
    }

    pub fn new(mode: Mode, signals: S, constraints: C) -> (r: Self)
        ensures
            r.mode == mode,
            r.signals == signals,
            r.constraints == constraints,
            r.inputs() == Map::<Seq<char>, ValueView>::empty(),
    {
        let r = Evaluator { mode, signals, constraints, deferred: StringHashMap::new() };
        proof {
            assert(r.inputs() =~= Map::<Seq<char>, ValueView>::empty());
        }
        r
    }

    /// Supplies the value of an input, by the input's full name.
    pub fn set_deferred_value(&mut self, full_name: String, value: Value)
        ensures
            final(self).inputs() == old(self).inputs().insert(full_name@, value@),
            final(self).mode == old(self).mode,
            final(self).signals == old(self).signals,
            final(self).constraints == old(self).constraints,
    {
        self.deferred.insert(full_name, value);
        proof {
            assert(self.inputs() =~= old(self).inputs().insert(full_name@, value@));
        }
    }

    /// A signal as a symbol, by its full name.
    fn signal_symbol(&self, scope: &Scope, full_name: &str) -> (r: Result<Value, Error>)
        requires
            self.inv(),
        ensures
            match r {
                Ok(v) => semantics::signal_symbol(self.state(scope), full_name@) == Ok::<
                    ValueView,
                    Failure,
                >(v@),
                Err(e) => (semantics::signal_symbol(self.state(scope), full_name@) matches Err(k)
                    && e.failure() == k) || !self.infallible(),
            },
    {
        match self.signals.get_by_name(full_name) {
            Ok(Some(s)) => Ok(Value::from_signal(s.id)),
            Ok(None) => Err(Error::NotFound(String::from_str(full_name))),
            Err(e) => Err(io_failure(e)),
        }
    }

    /// The full name of a signal of a sub-component.
    fn pin_name(&self, scope: &Scope, component: &str, signal: &str) -> (r: Result<String, Error>)
        requires
            self.inv(),
            scope@.len() > 0,
        ensures
            match r {
                Ok(n) => semantics::pin_name(self.state(scope), component@, signal@) == Ok::<
                    Seq<char>,
                    Failure,
                >(n@),
                Err(e) => (semantics::pin_name(self.state(scope), component@, signal@) matches Err(
                    k,
                ) && e.failure() == k) || !self.infallible(),
            },
    {
        if scope.has_component(component) {
            let path = scope.full_name(component);
            Ok(scope::join(path.as_str(), signal))
        } else {
            Err(Error::InvalidSelector(String::from_str(component)))
        }
    }

    /// Lets a new internal signal stand for the product of two combinations.
    fn materialize(&mut self, scope: &Scope, a: &LC, b: &LC) -> (r: Result<Value, Error>)
        requires
            old(self).inv(),
            scope@.len() > 0,
        ensures
            final(self).inv(),
            final(self).same_run(old(self)),
            semantics::advances(
                old(self).mode,
                old(self).signals.table(),
                old(self).constraints.list(),
                final(self).signals.table(),
                final(self).constraints.list(),
            ),
            match r {
                Ok(v) => semantics::materialize(old(self).mode, a@, b@, old(self).state(scope))
                    == Ok::<(ValueView, State), Failure>(
                    (v@, final(self).state(scope)),
                ),
                Err(e) => (semantics::materialize(
                    old(self).mode,
                    a@,
                    b@,
                    old(self).state(scope),
                ) matches Err(k) && e.failure() == k) || !old(self).infallible(),
            },
    {
        let id: SignalId = match self.signals.len() {
            Ok(n) => n,
            Err(e) => {
                return Err(io_failure(e));
            },
        };
        let mut short = String::from_str("~");
        short.append(FS::from_u64(id as u64).to_string().as_str());
        proof {
            reveal_strlit("~");
            assert(short@ =~= semantics::internal_name(id));
        }
        let full_name = scope.full_name(short.as_str());
        match self.mode {
            Mode::GenConstraints => {
                match self.signals.insert(full_name, SignalType::Internal, None) {
                    Ok(_) => {},
                    Err(e) => {
                        return Err(Error::from_storage(e));
                    },
                }
                let q = QEQ::new(a.canonize(), b.canonize(), LC::from_signal(id).neg());
                match self.constraints.push(q) {
                    Ok(_) => {},
                    Err(e) => {
                        return Err(io_failure(e));
                    },
                }
            },
            Mode::GenWitness => {
                let x = match a.substitute(&self.signals) {
                    Ok(x) => x,
                    Err(e) => {
                        return Err(Error::from_storage(e));
                    },
                };
                let y = match b.substitute(&self.signals) {
                    Ok(y) => y,
                    Err(e) => {
                        return Err(Error::from_storage(e));
                    },
                };
                let p = x.mul(&y);
                proof {
                    p.lemma_of_view();
                    x.lemma_of_view();
                    y.lemma_of_view();
                }
                match self.signals.insert(
                    full_name,
                    SignalType::Internal,
                    Some(Value::FieldScalar(p)),
                ) {
                    Ok(_) => {},
                    Err(e) => {
                        return Err(Error::from_storage(e));
                    },
                }
            },
        }
        Ok(Value::from_signal(id))
    }

    /// The product of two values.
    fn multiply(&mut self, scope: &Scope, x: &Value, y: &Value) -> (r: Result<Value, Error>)
        requires
            old(self).inv(),
            scope@.len() > 0,
        ensures
            final(self).inv(),
            final(self).same_run(old(self)),
            semantics::advances(
                old(self).mode,
                old(self).signals.table(),
                old(self).constraints.list(),
                final(self).signals.table(),
                final(self).constraints.list(),
            ),
            match r {
                Ok(v) => semantics::multiply(old(self).mode, x@, y@, old(self).state(scope)) == Ok::<
                    (ValueView, State),
                    Failure,
                >((v@, final(self).state(scope))),
                Err(e) => (semantics::multiply(
                    old(self).mode,
                    x@,
                    y@,
                    old(self).state(scope),
                ) matches Err(k) && e.failure() == k) || !old(self).infallible(),
            },
    {
        match x.mul(y) {
            Ok(v) => Ok(v),
            Err(e) => {
                match (x, y) {
                    (Value::LinearCombination(a), Value::LinearCombination(b)) => self.materialize(
                        scope,
                        a,
                        b,
                    ),
                    _ => Err(Error::Algebra(e)),
                }
            },
        }
    }

    /// The value of an expression. Signals stand as symbols. A product of
    /// two expressions that both name signals becomes a new internal signal.
    pub fn eval_expression(&mut self, scope: &Scope, e: &Expression) -> (r: Result<Value, Error>)
        requires
            old(self).inv(),
            scope@.len() > 0,
        ensures
            final(self).inv(),
            final(self).same_run(old(self)),
            semantics::advances(
                old(self).mode,
                old(self).signals.table(),
                old(self).constraints.list(),
                final(self).signals.table(),
                final(self).constraints.list(),
            ),
            match r {
                Ok(v) => semantics::evaluate(old(self).mode, *e, old(self).state(scope)) == Ok::<
                    (ValueView, State),
                    Failure,
                >((v@, final(self).state(scope))),
                Err(err) => (semantics::evaluate(
                    old(self).mode,
                    *e,
                    old(self).state(scope),
                ) matches Err(k) && err.failure() == k) || !old(self).infallible(),
            },
        decreases e,
    {
        match e {
            Expression::Number(f) => Ok(Value::FieldScalar(*f)),
            Expression::Variable(name) => {
                match scope.lookup(name.as_str()) {
                    Some(v) => Ok(v),
                    None => {
                        let full_name = scope.full_name(name.as_str());
                        self.signal_symbol(scope, full_name.as_str())
                    },
                }
            },
            Expression::Pin(component, signal) => {
                match self.pin_name(scope, component.as_str(), signal.as_str()) {
                    Ok(full_name) => self.signal_symbol(scope, full_name.as_str()),
                    Err(e) => Err(e),
                }
            },
            Expression::Neg(x) => {
                match self.eval_expression(scope, x) {
                    Ok(v) => Ok(v.neg()),
                    Err(e) => Err(e),
                }
            },
            Expression::Add(l, r) => {
                let x = match self.eval_expression(scope, l) {
                    Ok(x) => x,
                    Err(e) => {
                        return Err(e);
                    },
                };
                let y = match self.eval_expression(scope, r) {
                    Ok(y) => y,
                    Err(e) => {
                        return Err(e);
                    },
                };
                Ok(x.add(&y))
            },
            Expression::Sub(l, r) => {
                let x = match self.eval_expression(scope, l) {
                    Ok(x) => x,
                    Err(e) => {
                        return Err(e);
                    },
                };
                let y = match self.eval_expression(scope, r) {
                    Ok(y) => y,
                    Err(e) => {
                        return Err(e);
                    },
                };
                Ok(x.sub(&y))
            },
            Expression::Mul(l, r) => {
                let x = match self.eval_expression(scope, l) {
                    Ok(x) => x,
                    Err(e) => {
                        return Err(e);
                    },
                };
                let y = match self.eval_expression(scope, r) {
                    Ok(y) => y,
                    Err(e) => {
                        return Err(e);
                    },
                };
                self.multiply(scope, &x, &y)
            },
        }
    }

    /// What the run is given, with the templates of a circuit.
    pub open spec fn env(&self, templates: Seq<Template>) -> Env {
        Env { mode: self.mode, inputs: self.inputs(), templates }
    }

    /// Declares a signal of the component under evaluation.
    fn declare_signal(&mut self, scope: &Scope, name: &str, xtype: SignalType) -> (r: Result<
        (),
        Error,
    >)
        requires
            old(self).inv(),
            scope@.len() > 0,
        ensures
            final(self).inv(),
            final(self).same_run(old(self)),
            semantics::advances(
                old(self).mode,
                old(self).signals.table(),
                old(self).constraints.list(),
                final(self).signals.table(),
                final(self).constraints.list(),
            ),
            match r {
                Ok(_) => semantics::declare_signal(
                    old(self).mode,
                    old(self).inputs(),
                    name@,
                    xtype,
                    old(self).state(scope),
                ) == Ok::<State, Failure>(final(self).state(scope)),
                Err(e) => (semantics::declare_signal(
                    old(self).mode,
                    old(self).inputs(),
                    name@,
                    xtype,
                    old(self).state(scope),
                ) matches Err(k) && e.failure() == k) || !old(self).infallible(),
            },
    {
        let full_name = scope.full_name(name);
        let from_outside: bool = match self.mode {
            Mode::GenWitness => is_input(xtype),
            Mode::GenConstraints => false,
        };
        let value: Option<Value> = if from_outside {
            match self.deferred.get(full_name.as_str()) {
                Some(v) => Some(v.clone()),
                None => {
                    return Err(Error::NotFound(full_name));
                },
            }
        } else {
            None
        };
        match self.signals.insert(full_name, xtype, value) {
            Ok(_) => Ok(()),
            Err(e) => Err(Error::from_storage(e)),
        }
    }

    /// The signal that an assignment is made to.
    fn target_signal(&self, scope: &Scope, target: &Target) -> (r: Result<Signal, Error>)
        requires
            self.inv(),
            scope@.len() > 0,
        ensures
            match r {
                Ok(s) => semantics::target_signal(self.state(scope), *target) == Ok::<
                    crate::storage::types::SignalView,
                    Failure,
                >(s@) && s.id < self.signals.table().len(),
                Err(e) => (semantics::target_signal(self.state(scope), *target) matches Err(k)
                    && e.failure() == k) || !self.infallible(),
            },
    {
        let full_name = match target {
            Target::Signal(name) => scope.full_name(name.as_str()),
            Target::Pin(component, signal) => match self.pin_name(
                scope,
                component.as_str(),
                signal.as_str(),
            ) {
                Ok(n) => n,
                Err(e) => {
                    return Err(e);
                },
            },
        };
        proof {
            self.signals.lemma_table();
        }
        match self.signals.get_by_name(full_name.as_str()) {
            Ok(Some(s)) => {
                if s.xtype == SignalType::Component {
                    Err(Error::InvalidType(full_name))
                } else {
                    Ok(s)
                }
            },
            Ok(None) => Err(Error::NotFound(full_name)),
            Err(e) => Err(io_failure(e)),
        }
    }

    /// Reduces an expression to a form that one equation can hold.
    fn reduce(&mut self, scope: &Scope, e: &Expression) -> (r: Result<Reduced, Error>)
        requires
            old(self).inv(),
            scope@.len() > 0,
        ensures
            final(self).inv(),
            final(self).same_run(old(self)),
            semantics::advances(
                old(self).mode,
                old(self).signals.table(),
                old(self).constraints.list(),
                final(self).signals.table(),
                final(self).constraints.list(),
            ),
            match r {
                Ok(f) => semantics::reduce(old(self).mode, *e, old(self).state(scope)) == Ok::<
                    (Form, State),
                    Failure,
                >((f@, final(self).state(scope))) && f.known(),
                Err(err) => (semantics::reduce(
                    old(self).mode,
                    *e,
                    old(self).state(scope),
                ) matches Err(k) && err.failure() == k) || !old(self).infallible(),
            },
    {
        match e {
            Expression::Mul(l, r) => {
                let x = match self.eval_expression(scope, l) {
                    Ok(x) => x,
                    Err(e) => {
                        return Err(e);
                    },
                };
                let y = match self.eval_expression(scope, r) {
                    Ok(y) => y,
                    Err(e) => {
                        return Err(e);
                    },
                };
                match x.mul(&y) {
                    Ok(v) => Ok(Reduced::Linear(v)),
                    Err(_) => match (x, y) {
                        (Value::LinearCombination(a), Value::LinearCombination(b)) => Ok(
                            Reduced::Product(a, b),
                        ),
                        _ => Err(
                            Error::CannotGenerateConstrain(
                                String::from_str("product of an unknown value"),
                            ),
                        ),
                    },
                }
            },
            _ => {
                match self.eval_expression(scope, e) {
                    Ok(v) => match v {
                        Value::Unknown => Err(
                            Error::CannotGenerateConstrain(String::from_str("unknown value")),
                        ),
                        _ => Ok(Reduced::Linear(v)),
                    },
                    Err(e) => Err(e),
                }
            },
        }
    }

    /// The number of a known value under the values in the signal table.
    fn known_number(&self, v: &Value) -> (r: Result<FS, Error>)
        requires
            self.inv(),
        ensures
            match r {
                Ok(n) => semantics::known_number(v@, self.signals.table()) == Ok::<FS, Failure>(n),
                Err(e) => (semantics::known_number(v@, self.signals.table()) matches Err(k)
                    && e.failure() == k) || !self.infallible(),
            },
    {
        match v {
            Value::FieldScalar(f) => Ok(*f),
            Value::LinearCombination(l) => self.number_of(l),
            Value::Unknown => Err(Error::NotFound(String::from_str("unknown value"))),
        }
    }

    /// The number that a combination comes to under the values in the signal table.
    fn number_of(&self, l: &LC) -> (r: Result<FS, Error>)
        requires
            self.inv(),
        ensures
            match r {
                Ok(n) => semantics::number_of(l@, self.signals.table()) == Ok::<FS, Failure>(n),
                Err(e) => (semantics::number_of(l@, self.signals.table()) matches Err(k)
                    && e.failure() == k) || !self.infallible(),
            },
    {
        match l.substitute(&self.signals) {
            Ok(n) => {
                proof {
                    n.lemma_of_view();
                }
                Ok(n)
            },
            Err(e) => Err(Error::from_storage(e)),
        }
    }

    /// The number of a form under the values in the signal table.
    fn form_number(&self, form: &Reduced) -> (r: Result<FS, Error>)
        requires
            self.inv(),
        ensures
            match r {
                Ok(n) => semantics::form_number(form@, self.signals.table()) == Ok::<FS, Failure>(
                    n,
                ),
                Err(e) => (semantics::form_number(form@, self.signals.table()) matches Err(k)
                    && e.failure() == k) || !self.infallible(),
            },
    {
        match form {
            Reduced::Linear(v) => self.known_number(v),
            Reduced::Product(a, b) => {
                let x = match self.number_of(a) {
                    Ok(x) => x,
                    Err(e) => {
                        return Err(e);
                    },
                };
                let y = match self.number_of(b) {
                    Ok(y) => y,
                    Err(e) => {
                        return Err(e);
                    },
                };
                let p = x.mul(&y);
                proof {
                    p.lemma_of_view();
                }
                Ok(p)
            },
        }
    }

    /// The number of an expression under the values in the signal table.
    pub fn number(&self, scope: &Scope, e: &Expression) -> (r: Result<FS, Error>)
        requires
            self.inv(),
            scope@.len() > 0,
        ensures
            match r {
                Ok(n) => semantics::number(*e, self.state(scope)) == Ok::<FS, Failure>(n),
                Err(err) => (semantics::number(*e, self.state(scope)) matches Err(k)
                    && err.failure() == k) || !self.infallible(),
            },
        decreases e,
    {
        match e {
            Expression::Number(f) => Ok(*f),
            Expression::Variable(name) => {
                match scope.lookup(name.as_str()) {
                    Some(v) => self.known_number(&v),
                    None => {
                        let full_name = scope.full_name(name.as_str());
                        match self.signal_symbol(scope, full_name.as_str()) {
                            Ok(v) => self.known_number(&v),
                            Err(e) => Err(e),
                        }
                    },
                }
            },
            Expression::Pin(component, signal) => {
                match self.pin_name(scope, component.as_str(), signal.as_str()) {
                    Ok(full_name) => match self.signal_symbol(scope, full_name.as_str()) {
                        Ok(v) => self.known_number(&v),
                        Err(e) => Err(e),
                    },
                    Err(e) => Err(e),
                }
            },
            Expression::Neg(x) => {
                match self.number(scope, x) {
                    Ok(n) => {
                        let r = n.neg();
                        proof {
                            r.lemma_of_view();
                        }
                        Ok(r)
                    },
                    Err(e) => Err(e),
                }
            },
            Expression::Add(l, r) => {
                let x = match self.number(scope, l) {
                    Ok(x) => x,
                    Err(e) => {
                        return Err(e);
                    },
                };
                let y = match self.number(scope, r) {
                    Ok(y) => y,
                    Err(e) => {
                        return Err(e);
                    },
                };
                let r = x.add(&y);
                proof {
                    r.lemma_of_view();
                }
                Ok(r)
            },
            Expression::Sub(l, r) => {
                let x = match self.number(scope, l) {
                    Ok(x) => x,
                    Err(e) => {
                        return Err(e);
                    },
                };
                let y = match self.number(scope, r) {
                    Ok(y) => y,
                    Err(e) => {
                        return Err(e);
                    },
                };
                let r = x.sub(&y);
                proof {
                    r.lemma_of_view();
                }
                Ok(r)
            },
            Expression::Mul(l, r) => {
                let x = match self.number(scope, l) {
                    Ok(x) => x,
                    Err(e) => {
                        return Err(e);
                    },
                };
                let y = match self.number(scope, r) {
                    Ok(y) => y,
                    Err(e) => {
                        return Err(e);
                    },
                };
                let r = x.mul(&y);
                proof {
                    r.lemma_of_view();
                }
                Ok(r)
            },
        }
    }

    /// `target <== value`
    fn constrained_assign(&mut self, scope: &Scope, target: &Target, value: &Expression) -> (r:
        Result<(), Error>)
        requires
            old(self).inv(),
            scope@.len() > 0,
        ensures
            final(self).inv(),
            final(self).same_run(old(self)),
            semantics::advances(
                old(self).mode,
                old(self).signals.table(),
                old(self).constraints.list(),
                final(self).signals.table(),
                final(self).constraints.list(),
            ),
            match r {
                Ok(_) => semantics::constrained_assign(
                    old(self).mode,
                    *target,
                    *value,
                    old(self).state(scope),
                ) == Ok::<State, Failure>(final(self).state(scope)),
                Err(e) => (semantics::constrained_assign(
                    old(self).mode,
                    *target,
                    *value,
                    old(self).state(scope),
                ) matches Err(k) && e.failure() == k) || !old(self).infallible(),
            },
    {
        let t = match self.target_signal(scope, target) {
            Ok(t) => t,
            Err(e) => {
                return Err(e);
            },
        };
        let form = match self.reduce(scope, value) {
            Ok(f) => f,
            Err(e) => {
                return Err(e);
            },
        };
        match self.mode {
            Mode::GenConstraints => {
                let q = equation(&form, &LC::from_signal(t.id));
                match self.constraints.push(q) {
                    Ok(_) => {},
                    Err(e) => {
                        return Err(io_failure(e));
                    },
                }
                match form {
                    Reduced::Linear(v) => match self.signals.update(t.id, v) {
                        Ok(_) => Ok(()),
                        Err(e) => Err(io_failure(e)),
                    },
                    Reduced::Product(_, _) => Ok(()),
                }
            },
            Mode::GenWitness => {
                let n = match self.form_number(&form) {
                    Ok(n) => n,
                    Err(e) => {
                        return Err(e);
                    },
                };
                match self.signals.update(t.id, Value::FieldScalar(n)) {
                    Ok(_) => Ok(()),
                    Err(e) => Err(io_failure(e)),
                }
            },
        }
    }

    /// `target <-- value`
    fn hint(&mut self, scope: &Scope, target: &Target, value: &Expression) -> (r: Result<(), Error>)
        requires
            old(self).inv(),
            scope@.len() > 0,
        ensures
            final(self).inv(),
            final(self).same_run(old(self)),
            semantics::advances(
                old(self).mode,
                old(self).signals.table(),
                old(self).constraints.list(),
                final(self).signals.table(),
                final(self).constraints.list(),
            ),
            match r {
                Ok(_) => semantics::hint(old(self).mode, *target, *value, old(self).state(scope))
                    == Ok::<State, Failure>(final(self).state(scope)),
                Err(e) => (semantics::hint(
                    old(self).mode,
                    *target,
                    *value,
                    old(self).state(scope),
                ) matches Err(k) && e.failure() == k) || !old(self).infallible(),
            },
    {
        match self.mode {
            Mode::GenConstraints => Ok(()),
            Mode::GenWitness => {
                let t = match self.target_signal(scope, target) {
                    Ok(t) => t,
                    Err(e) => {
                        return Err(e);
                    },
                };
                let n = match self.number(scope, value) {
                    Ok(n) => n,
                    Err(e) => {
                        return Err(e);
                    },
                };
                match self.signals.update(t.id, Value::FieldScalar(n)) {
                    Ok(_) => Ok(()),
                    Err(e) => Err(io_failure(e)),
                }
            },
        }
    }

    /// `left === right`
    fn constrain(&mut self, scope: &Scope, left: &Expression, right: &Expression) -> (r: Result<
        (),
        Error,
    >)
        requires
            old(self).inv(),
            scope@.len() > 0,
        ensures
            final(self).inv(),
            final(self).same_run(old(self)),
            semantics::advances(
                old(self).mode,
                old(self).signals.table(),
                old(self).constraints.list(),
                final(self).signals.table(),
                final(self).constraints.list(),
            ),
            match r {
                Ok(_) => semantics::constrain(
                    old(self).mode,
                    *left,
                    *right,
                    old(self).state(scope),
                ) == Ok::<State, Failure>(final(self).state(scope)),
                Err(e) => (semantics::constrain(
                    old(self).mode,
                    *left,
                    *right,
                    old(self).state(scope),
                ) matches Err(k) && e.failure() == k) || !old(self).infallible(),
            },
    {
        let form = match self.reduce(scope, left) {
            Ok(f) => f,
            Err(e) => {
                return Err(e);
            },
        };
        let y = match self.eval_expression(scope, right) {
            Ok(y) => y,
            Err(e) => {
                return Err(e);
            },
        };
        let rhs = match y.to_lc() {
            Some(l) => l,
            None => {
                return Err(Error::CannotGenerateConstrain(String::from_str("unknown value")));
            },
        };
        match self.mode {
            Mode::GenConstraints => {
                let q = equation(&form, &rhs);
                proof {
                    lc::lemma_canon(y@.terms(), rhs@);
                }
                match self.constraints.push(q) {
                    Ok(_) => Ok(()),
                    Err(e) => Err(io_failure(e)),
                }
            },
            Mode::GenWitness => Ok(()),
        }
    }

    /// `var name;` or `var name = init;`
    fn declare_variable(&mut self, scope: &mut Scope, name: &String, init: &Option<Expression>) -> (r:
        Result<(), Error>)
        requires
            old(self).inv(),
            old(scope)@.len() > 0,
        ensures
            final(self).inv(),
            final(self).same_run(old(self)),
            semantics::advances(
                old(self).mode,
                old(self).signals.table(),
                old(self).constraints.list(),
                final(self).signals.table(),
                final(self).constraints.list(),
            ),
            match r {
                Ok(_) => semantics::declare_variable(
                    old(self).mode,
                    name@,
                    *init,
                    old(self).state(old(scope)),
                ) == Ok::<State, Failure>(final(self).state(final(scope))) && final(scope)@.len()
                    == old(scope)@.len(),
                Err(e) => (semantics::declare_variable(
                    old(self).mode,
                    name@,
                    *init,
                    old(self).state(old(scope)),
                ) matches Err(k) && e.failure() == k) || !old(self).infallible(),
            },
    {
        let v = match init {
            Some(e) => match self.eval_expression(scope, e) {
                Ok(v) => v,
                Err(e) => {
                    return Err(e);
                },
            },
            None => Value::Unknown,
        };
        scope.declare(name.clone(), v)
    }

    /// `name = value;`
    fn assign_variable(&mut self, scope: &mut Scope, name: &String, value: &Expression) -> (r:
        Result<(), Error>)
        requires
            old(self).inv(),
            old(scope)@.len() > 0,
        ensures
            final(self).inv(),
            final(self).same_run(old(self)),
            semantics::advances(
                old(self).mode,
                old(self).signals.table(),
                old(self).constraints.list(),
                final(self).signals.table(),
                final(self).constraints.list(),
            ),
            match r {
                Ok(_) => semantics::assign_variable(
                    old(self).mode,
                    name@,
                    *value,
                    old(self).state(old(scope)),
                ) == Ok::<State, Failure>(final(self).state(final(scope))) && final(scope)@.len()
                    == old(scope)@.len(),
                Err(e) => (semantics::assign_variable(
                    old(self).mode,
                    name@,
                    *value,
                    old(self).state(old(scope)),
                ) matches Err(k) && e.failure() == k) || !old(self).infallible(),
            },
    {
        let v = match self.eval_expression(scope, value) {
            Ok(v) => v,
            Err(e) => {
                return Err(e);
            },
        };
        proof {
            scope::lemma_resolve(scope@, name@);
        }
        scope.assign(name.as_str(), v)
    }

    /// What a statement does.
    pub fn execute(&mut self, circuit: &Circuit, scope: &mut Scope, s: &Statement, depth: usize) -> (r:
        Result<(), Error>)
        requires
            old(self).inv(),
            old(scope)@.len() > 0,
        ensures
            final(self).inv(),
            final(self).same_run(old(self)),
            semantics::advances(
                old(self).mode,
                old(self).signals.table(),
                old(self).constraints.list(),
                final(self).signals.table(),
                final(self).constraints.list(),
            ),
            match r {
                Ok(_) => semantics::execute(
                    old(self).env(circuit.templates@),
                    *s,
                    old(self).state(old(scope)),
                    depth as nat,
                ) == Ok::<State, Failure>(final(self).state(final(scope))) && final(scope)@.len()
                    == old(scope)@.len(),
                Err(e) => (semantics::execute(
                    old(self).env(circuit.templates@),
                    *s,
                    old(self).state(old(scope)),
                    depth as nat,
                ) matches Err(k) && e.failure() == k) || !old(self).infallible(),
            },
        decreases depth, 1int,
    {
        match s {
            Statement::Signal { name, xtype } => self.declare_signal(scope, name.as_str(), *xtype),
            Statement::Variable { name, init } => self.declare_variable(scope, name, init),
            Statement::Assign { name, value } => self.assign_variable(scope, name, value),
            Statement::Component { name, template, arguments } => self.instantiate(
                circuit,
                scope,
                name.as_str(),
                template.as_str(),
                arguments,
                depth,
            ),
            Statement::ConstrainedAssign { target, value } => self.constrained_assign(
                scope,
                target,
                value,
            ),
            Statement::Hint { target, value } => self.hint(scope, target, value),
            Statement::Constrain { left, right } => self.constrain(scope, left, right),
        }
    }

    /// Instantiates a template as a component of the component under
    /// evaluation.
    pub fn instantiate(
        &mut self,
        circuit: &Circuit,
        scope: &mut Scope,
        name: &str,
        template: &str,
        arguments: &Vec<Expression>,
        depth: usize,
    ) -> (r: Result<(), Error>)
        requires
            old(self).inv(),
            old(scope)@.len() > 0,
        ensures
            final(self).inv(),
            final(self).same_run(old(self)),
            semantics::advances(
                old(self).mode,
                old(self).signals.table(),
                old(self).constraints.list(),
                final(self).signals.table(),
                final(self).constraints.list(),
            ),
            match r {
                Ok(_) => semantics::instantiate(
                    old(self).env(circuit.templates@),
                    name@,
                    template@,
                    arguments@,
                    old(self).state(old(scope)),
                    depth as nat,
                ) == Ok::<State, Failure>(final(self).state(final(scope))) && final(scope)@.len()
                    == old(scope)@.len(),
                Err(e) => (semantics::instantiate(
                    old(self).env(circuit.templates@),
                    name@,
                    template@,
                    arguments@,
                    old(self).state(old(scope)),
                    depth as nat,
                ) matches Err(k) && e.failure() == k) || !old(self).infallible(),
            },
        decreases depth, 0int,
    {
        let t: usize = match circuit.find_template(template) {
            Some(t) => t,
            None => {
                return Err(Error::NotFound(String::from_str(template)));
            },
        };
        if depth == 0 {
            return Err(Error::NotYetImplemented(String::from_str("components nested too deep")));
        }
        if circuit.templates[t].parameters.len() != arguments.len() {
            return Err(Error::InvalidParameter(String::from_str(template)));
        }
        let values = match self.arguments(scope, arguments) {
            Ok(values) => values,
            Err(e) => {
                return Err(e);
            },
        };
        match scope.declare_component(String::from_str(name)) {
            Ok(_) => {},
            Err(e) => {
                return Err(e);
            },
        }
        scope.enter(name);
        match self.bind_parameters(scope, &circuit.templates[t].parameters, &values) {
            Ok(_) => {},
            Err(e) => {
                return Err(e);
            },
        }
        match self.run(circuit, scope, t, depth - 1) {
            Ok(_) => {},
            Err(e) => {
                return Err(e);
            },
        }
        scope.leave();
        Ok(())
    }

    /// The values of the arguments of an instance.
    fn arguments(&mut self, scope: &Scope, args: &Vec<Expression>) -> (r: Result<Vec<Value>, Error>)
        requires
            old(self).inv(),
            scope@.len() > 0,
        ensures
            final(self).inv(),
            final(self).same_run(old(self)),
            semantics::advances(
                old(self).mode,
                old(self).signals.table(),
                old(self).constraints.list(),
                final(self).signals.table(),
                final(self).constraints.list(),
            ),
            match r {
                Ok(values) => semantics::arguments(
                    old(self).mode,
                    args@,
                    0,
                    old(self).state(scope),
                ) == Ok::<(Seq<ValueView>, State), Failure>(
                    (crate::algebra::value::views(values@), final(self).state(scope)),
                ) && values@.len() == args@.len(),
                Err(e) => (semantics::arguments(
                    old(self).mode,
                    args@,
                    0,
                    old(self).state(scope),
                ) matches Err(k) && e.failure() == k) || !old(self).infallible(),
            },
    {
        let ghost mode = self.mode;
        let ghost start = self.state(scope);
        let ghost whole = semantics::arguments(mode, args@, 0, start);
        let mut values: Vec<Value> = Vec::new();
        let mut i: usize = 0;
        proof {
            match whole {
                Ok((vs, st)) => {
                    assert(crate::algebra::value::views(values@) + vs =~= vs);
                },
                Err(k) => {},
            }
        }
        while i < args.len()
            invariant
                self.inv(),
                self.same_run(old(self)),
                semantics::advances(
                    old(self).mode,
                    old(self).signals.table(),
                    old(self).constraints.list(),
                    self.signals.table(),
                    self.constraints.list(),
                ),
                scope@.len() > 0,
                mode == old(self).mode,
                start == old(self).state(scope),
                whole == semantics::arguments(mode, args@, 0, start),
                i <= args@.len(),
                values@.len() == i,
                whole == (match semantics::arguments(mode, args@, i as int, self.state(scope)) {
                    Ok((vs, st)) => Ok::<(Seq<ValueView>, State), Failure>(
                        (crate::algebra::value::views(values@) + vs, st),
                    ),
                    Err(k) => Err(k),
                }),
            decreases args@.len() - i,
        {
            let ghost before = crate::algebra::value::views(values@);
            let v = match self.eval_expression(scope, &args[i]) {
                Ok(v) => v,
                Err(e) => {
                    return Err(e);
                },
            };
            if v.try_into_fs().is_none() {
                return Err(Error::InvalidParameter(String::from_str("an argument must be constant")));
            }
            let ghost view = v@;
            values.push(v);
            proof {
                match semantics::arguments(mode, args@, i + 1, self.state(scope)) {
                    Ok((vs, st)) => {
                        assert(before + (seq![view] + vs) =~= crate::algebra::value::views(values@)
                            + vs);
                    },
                    Err(k) => {},
                }
            }
            i = i + 1;
        }
        proof {
            assert(crate::algebra::value::views(values@) + Seq::<ValueView>::empty()
                =~= crate::algebra::value::views(values@));
        }
        Ok(values)
    }

    /// Declares the parameters of a template in the innermost scope.
    fn bind_parameters(&self, scope: &mut Scope, names: &Vec<String>, values: &Vec<Value>) -> (r:
        Result<(), Error>)
        requires
            old(scope)@.len() > 0,
            names@.len() == values@.len(),
        ensures
            match r {
                Ok(_) => semantics::bind_parameters(
                    self.state(old(scope)),
                    names@,
                    crate::algebra::value::views(values@),
                    0,
                ) == Ok::<State, Failure>(self.state(final(scope))) && final(scope)@.len() == old(
                    scope,
                )@.len(),
                Err(e) => semantics::bind_parameters(
                    self.state(old(scope)),
                    names@,
                    crate::algebra::value::views(values@),
                    0,
                ) matches Err(k) && e.failure() == k,
            },
    {
        let ghost views = crate::algebra::value::views(values@);
        let ghost start = self.state(scope);
        let mut i: usize = 0;
        while i < names.len()
            invariant
                i <= names@.len(),
                names@.len() == values@.len(),
                scope@.len() == old(scope)@.len(),
                scope@.len() > 0,
                views == crate::algebra::value::views(values@),
                start == self.state(old(scope)),
                semantics::bind_parameters(start, names@, views, 0) == semantics::bind_parameters(
                    self.state(scope),
                    names@,
                    views,
                    i as int,
                ),
            decreases names@.len() - i,
        {
            match scope.declare(names[i].clone(), values[i].clone()) {
                Ok(_) => {},
                Err(e) => {
                    return Err(e);
                },
            }
            i = i + 1;
        }
        Ok(())
    }

    /// Runs the statements of a template, in order.
    fn run(&mut self, circuit: &Circuit, scope: &mut Scope, t: usize, depth: usize) -> (r: Result<
        (),
        Error,
    >)
        requires
            old(self).inv(),
            old(scope)@.len() > 0,
            t < circuit.templates@.len(),
        ensures
            final(self).inv(),
            final(self).same_run(old(self)),
            semantics::advances(
                old(self).mode,
                old(self).signals.table(),
                old(self).constraints.list(),
                final(self).signals.table(),
                final(self).constraints.list(),
            ),
            match r {
                Ok(_) => semantics::run(
                    old(self).env(circuit.templates@),
                    circuit.templates@[t as int].body@,
                    0,
                    old(self).state(old(scope)),
                    depth as nat,
                ) == Ok::<State, Failure>(final(self).state(final(scope))) && final(scope)@.len()
                    == old(scope)@.len(),
                Err(e) => (semantics::run(
                    old(self).env(circuit.templates@),
                    circuit.templates@[t as int].body@,
                    0,
                    old(self).state(old(scope)),
                    depth as nat,
                ) matches Err(k) && e.failure() == k) || !old(self).infallible(),
            },
        decreases depth, 2int,
    {
        let ghost env = self.env(circuit.templates@);
        let ghost start = self.state(scope);
        let ghost body = circuit.templates@[t as int].body@;
        let n: usize = circuit.templates[t].body.len();
        let mut i: usize = 0;
        while i < n
            invariant
                self.inv(),
                self.same_run(old(self)),
                semantics::advances(
                    old(self).mode,
                    old(self).signals.table(),
                    old(self).constraints.list(),
                    self.signals.table(),
                    self.constraints.list(),
                ),
                scope@.len() == old(scope)@.len(),
                scope@.len() > 0,
                t < circuit.templates@.len(),
                env == old(self).env(circuit.templates@),
                start == old(self).state(old(scope)),
                body == circuit.templates@[t as int].body@,
                n == body.len(),
                i <= n,
                semantics::run(env, body, 0, start, depth as nat) == semantics::run(
                    env,
                    body,
                    i as int,
                    self.state(scope),
                    depth as nat,
                ),
            decreases n - i,
        {
            let ghost before = self.state(scope);
            let ghost step = semantics::execute(env, body[i as int], before, depth as nat);
            proof {
                assert(self.env(circuit.templates@) == env);
                assert(semantics::run(env, body, i as int, before, depth as nat) == (match step {
                    Ok(st1) => semantics::run(env, body, i + 1, st1, depth as nat),
                    Err(k) => Err(k),
                }));
            }
            match self.execute(circuit, scope, &circuit.templates[t].body[i], depth) {
                Ok(_) => {},
                Err(e) => {
                    return Err(e);
                },
            }
            i = i + 1;
        }
        Ok(())
    }

    /// The state of the run at the circuit's root.
    pub open spec fn root_state(&self) -> State {
        State {
            table: self.signals.table(),
            list: self.constraints.list(),
            frames: scope::root(),
        }
    }

    /// Walks the circuit: instantiates the template of `main` as the
    /// component `main` of the root.
    pub fn eval(&mut self, circuit: &Circuit) -> (r: Result<(), Error>)
        requires
            old(self).inv(),
        ensures
            final(self).inv(),
            final(self).same_run(old(self)),
            semantics::advances(
                old(self).mode,
                old(self).signals.table(),
                old(self).constraints.list(),
                final(self).signals.table(),
                final(self).constraints.list(),
            ),
            match r {
                Ok(_) => semantics::instantiate(
                    old(self).env(circuit.templates@),
                    "main"@,
                    circuit.main@,
                    Seq::empty(),
                    old(self).root_state(),
                    MAX_DEPTH as nat,
                ) matches Ok(st) && st.table == final(self).signals.table() && st.list
                    == final(self).constraints.list(),
                Err(e) => (semantics::instantiate(
                    old(self).env(circuit.templates@),
                    "main"@,
                    circuit.main@,
                    Seq::empty(),
                    old(self).root_state(),
                    MAX_DEPTH as nat,
                ) matches Err(k) && e.failure() == k) || !old(self).infallible(),
            },
    {
        let mut scope = Scope::new();
        let arguments: Vec<Expression> = Vec::new();
        self.instantiate(circuit, &mut scope, "main", circuit.main.as_str(), &arguments, MAX_DEPTH)
    }
}

/// How deep components may be nested.
pub const MAX_DEPTH: usize = 256;

/// A failure of a table's store, in a place where the table itself has
/// nothing to refuse.
fn io_failure(e: crate::storage::error::Error) -> (r: Error)
    ensures
        r is Io,
{
    match e {
        crate::storage::error::Error::NotFound(m) => Error::Io(m),
        crate::storage::error::Error::AlreadyExists(m) => Error::Io(m),
        crate::storage::error::Error::Encoding(m) => Error::Io(m),
        crate::storage::error::Error::Io(m) => Error::Io(m),
    }
}

/// What one side of a constraint reduces to.
pub enum Reduced {
    Linear(Value),
    Product(LC, LC),
}

impl View for Reduced {
    type V = Form;

    open spec fn view(&self) -> Form {
        match self {
            Reduced::Linear(v) => Form::Linear(v@),
            Reduced::Product(a, b) => Form::Product(a@, b@),
        }
    }
}

impl Reduced {
    /// A linear form holds a known value.
    pub open spec fn known(&self) -> bool {
        self matches Reduced::Linear(v) ==> !(v@ is Unknown)
    }
}

/// Whether the values of a type of signal are supplied from outside.
pub fn is_input(xtype: SignalType) -> (r: bool)
    ensures
        r == semantics::is_input(xtype),
{
    match xtype {
        SignalType::Input => true,
        SignalType::PublicInput => true,
        SignalType::PrivateInput => true,
        _ => false,
    }
}

/// The equation `form - rhs = 0`.
pub fn equation(form: &Reduced, rhs: &LC) -> (q: QEQ)
    requires
        form.known(),
    ensures
        q@ == semantics::equation(form@, rhs@),
        q@.canonical(),
{
    match form {
        Reduced::Linear(v) => {
            let l = match v.to_lc() {
                Some(l) => l,
                None => LC::new(),
            };
            let n = rhs.neg();
            let b = l.add(&n);
            proof {
                lc::lemma_sum(v@.terms(), n@, b@);
            }
            QEQ::new(LC::from_signal(lc::ONE), b, LC::new())
        },
        Reduced::Product(a, b) => QEQ::new(a.canonize(), b.canonize(), rhs.neg()),
    }
}

} // verus!
