//! The check of a witness against the constraints: every equation must
//! evaluate to zero under the values in the signal table.
use crate::algebra::field;
use crate::algebra::qeq::QeqView;
use crate::algebra::substitute;
use crate::evaluator::error::Error;
use crate::storage::types::Constraints;
use crate::storage::types::SignalView;
use crate::storage::types::Signals;
use vstd::prelude::*;

verus! {

/// Every signal that the equation names has a number.
pub open spec fn evaluable(q: QeqView, table: Seq<SignalView>) -> bool {
    &&& substitute::assigned(q.a, table)
    &&& substitute::assigned(q.b, table)
    &&& substitute::assigned(q.c, table)
}

/// What `a * b + c` comes to under the table's values.
pub open spec fn residue(q: QeqView, table: Seq<SignalView>) -> nat {
    (substitute::weighted_sum(q.a, table) * substitute::weighted_sum(q.b, table)
        + substitute::weighted_sum(q.c, table)) % field::modulus()
}

/// The equation holds under the table's values.
pub open spec fn satisfied(q: QeqView, table: Seq<SignalView>) -> bool {
    evaluable(q, table) && residue(q, table) == 0
}

/// The first `n` equations all hold.
pub open spec fn all_satisfied(list: Seq<QeqView>, table: Seq<SignalView>, n: int) -> bool {
    forall|i: int| 0 <= i < n ==> satisfied(#[trigger] list[i], table)
}

/// Checks every equation of the constraint table against the values in the
/// signal table, in order. It stops at the first equation that does not
/// come to zero, and reports its index; an equation that names a signal
/// without a number is reported as `NotFound`.
pub fn check_constraints_eval_zero<C: Constraints, S: Signals>(constraints: &C, signals: &S) -> (r:
    Result<(), Error>)
    requires
        constraints.inv(),
        signals.inv(),
    ensures
        match r {
            Ok(_) => all_satisfied(
                constraints.list(),
                signals.table(),
                constraints.list().len() as int,
            ),
            Err(Error::Unsatisfied(i)) => {
                &&& i < constraints.list().len()
                &&& all_satisfied(constraints.list(), signals.table(), i as int)
                &&& evaluable(constraints.list()[i as int], signals.table())
                &&& residue(constraints.list()[i as int], signals.table()) != 0
            },
            Err(Error::NotFound(_)) => (exists|i: int|
                0 <= i < constraints.list().len() && all_satisfied(
                    constraints.list(),
                    signals.table(),
                    i,
                ) && !evaluable(#[trigger] constraints.list()[i], signals.table()))
                || !constraints.infallible() || !signals.infallible(),
            Err(_) => !constraints.infallible() || !signals.infallible(),
        },
        constraints.infallible() && signals.infallible() ==> (r is Ok <==> all_satisfied(
            constraints.list(),
            signals.table(),
            constraints.list().len() as int,
        )),
{
    let n: usize = match constraints.len() {
        Ok(n) => n,
        Err(e) => {
            return Err(not_a_refusal(Error::from_storage(e)));
        },
    };
    let mut i: usize = 0;
    while i < n
        invariant
            constraints.inv(),
            signals.inv(),
            n == constraints.list().len(),
            i <= n,
            all_satisfied(constraints.list(), signals.table(), i as int),
        decreases n - i,
    {
        let q = match constraints.get(i) {
            Ok(q) => q,
            Err(e) => {
                return Err(not_a_refusal(Error::from_storage(e)));
            },
        };
        let a = match q.a.substitute(signals) {
            Ok(v) => v,
            Err(e) => {
                return Err(Error::from_storage(e));
            },
        };
        let b = match q.b.substitute(signals) {
            Ok(v) => v,
            Err(e) => {
                return Err(Error::from_storage(e));
            },
        };
        let c = match q.c.substitute(signals) {
            Ok(v) => v,
            Err(e) => {
                return Err(Error::from_storage(e));
            },
        };
        let value = a.mul(&b).add(&c);
        proof {
            vstd::arithmetic::div_mod::lemma_add_mod_noop_right(
                c@ as int,
                (a@ * b@) as int,
                field::modulus() as int,
            );
        }
        if !value.is_zero() {
            return Err(Error::Unsatisfied(i));
        }
        i = i + 1;
    }
    Ok(())
}

/// An error of the store passed on: where the store reports that something
/// is missing, in a place where the table itself has nothing to refuse, it
/// is passed on as an I/O failure.
fn not_a_refusal(e: Error) -> (r: Error)
    ensures
        !(r is Unsatisfied),
        !(r is NotFound),
        e is NotFound ==> r is Io,
        !(e is NotFound) && !(e is Unsatisfied) ==> r == e,
{
    match e {
        Error::NotFound(m) => Error::Io(m),
        Error::Unsatisfied(_) => Error::Io(String::new()),
        other => other,
    }
}

} // verus!
