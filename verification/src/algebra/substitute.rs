//! The value of a linear combination under the values that a signal table
//! holds.
use crate::algebra::field;
use crate::algebra::field::FS;
use crate::algebra::lc;
use crate::algebra::lc::SignalId;
use crate::algebra::modular;
use crate::algebra::lc::LC;
use crate::algebra::value::Value;
use crate::algebra::value::ValueView;
use crate::storage::error::Error;
use crate::storage::types::SignalView;
use crate::storage::types::Signals;
use vstd::prelude::*;
use vstd::string::*;

verus! {

/// The number that a table gives a signal: its value, where it is in the
/// table and its value is a field scalar.
pub open spec fn scalar_of(table: Seq<SignalView>, id: SignalId) -> Option<FS> {
    if id < table.len() {
        match table[id as int].value {
            Some(ValueView::FieldScalar(f)) => Some(f),
            _ => None,
        }
    } else {
        None
    }
}

/// Every signal that the terms name has a number.
pub open spec fn assigned(terms: Seq<(SignalId, FS)>, table: Seq<SignalView>) -> bool {
    forall|k: int| 0 <= k < terms.len() ==> scalar_of(table, (#[trigger] terms[k]).0) is Some
}

/// The sum, in the field, of each coefficient times its signal's number.
pub open spec fn weighted_sum(terms: Seq<(SignalId, FS)>, table: Seq<SignalView>) -> nat
    decreases terms.len(),
{
    if terms.len() == 0 {
        0
    } else {
        let t = terms.last();
        let v: nat = match scalar_of(table, t.0) {
            Some(f) => f@,
            None => 0,
        };
        (weighted_sum(terms.drop_last(), table) + t.1@ * v) % field::modulus()
    }
}

/// The number of a signal, or zero where it has none.
pub open spec fn number_at(table: Seq<SignalView>, id: SignalId) -> nat {
    match scalar_of(table, id) {
        Some(f) => f@,
        None => 0,
    }
}

/// The sum, in the field, over the first `n` signals of the table, of each
/// signal's coefficient times its number.
pub open spec fn dot(terms: Seq<(SignalId, FS)>, table: Seq<SignalView>, n: nat) -> nat
    decreases n,
{
    if n == 0 {
        0
    } else {
        (dot(terms, table, (n - 1) as nat) + lc::coefficient(terms, (n - 1) as usize) * number_at(
            table,
            (n - 1) as usize,
        )) % field::modulus()
    }
}

/// One more term adds its coefficient times its signal's number.
pub proof fn lemma_dot_push(
    terms: Seq<(SignalId, FS)>,
    t: (SignalId, FS),
    table: Seq<SignalView>,
    n: nat,
)
    requires
        n <= usize::MAX + 1,
    ensures
        dot(terms.push(t), table, n) == (if t.0 < n {
            (dot(terms, table, n) + t.1@ * number_at(table, t.0)) % field::modulus()
        } else {
            dot(terms, table, n)
        }),
    decreases n,
{
    let m = field::modulus() as int;
    let all = terms.push(t);
    if n > 0 {
        let j = (n - 1) as usize;
        lemma_dot_push(terms, t, table, (n - 1) as nat);
        assert(all.drop_last() =~= terms);
        let before = dot(terms, table, (n - 1) as nat) as int;
        let c = lc::coefficient(terms, j) as int;
        let v = number_at(table, j) as int;
        let w = number_at(table, t.0) as int;
        if t.0 == j {
            modular::lemma_product_sum(before, c, t.1@ as int, v, m);
        } else if t.0 < j {
            modular::lemma_sum_regroup(before, c * v, t.1@ * w, 0, m);
        }
    } else {
    }
}

/// The weighted sum is the sum over the signals of coefficient times number.
pub proof fn lemma_weighted_sum_is_dot(
    terms: Seq<(SignalId, FS)>,
    table: Seq<SignalView>,
)
    requires
        assigned(terms, table),
        table.len() <= usize::MAX,
    ensures
        weighted_sum(terms, table) == dot(terms, table, table.len()),
    decreases terms.len(),
{
    if terms.len() == 0 {
        lemma_dot_zero(terms, table, table.len());
    } else {
        let rest = terms.drop_last();
        let t = terms.last();
        assert forall|k: int| 0 <= k < rest.len() implies scalar_of(table, (#[trigger] rest[k]).0)
            is Some by {
            assert(rest[k] == terms[k]);
        }
        lemma_weighted_sum_is_dot(rest, table);
        lemma_dot_push(rest, t, table, table.len());
        assert(rest.push(t) =~= terms);
        assert(scalar_of(table, terms[terms.len() - 1].0) is Some);
    }
}

/// Without a coefficient there is nothing to sum.
pub proof fn lemma_dot_zero(terms: Seq<(SignalId, FS)>, table: Seq<SignalView>, n: nat)
    requires
        forall|id: SignalId| id < n ==> lc::coefficient(terms, id) == 0,
    ensures
        dot(terms, table, n) == 0,
    decreases n,
{
    if n > 0 {
        lemma_dot_zero(terms, table, (n - 1) as nat);
        assert(lc::coefficient(terms, (n - 1) as usize) == 0);
        assert(0 * number_at(table, (n - 1) as usize) == 0) by (nonlinear_arith);
    }
}

/// The sum depends on the combination, not on how its terms are written,
/// and on the numbers of the signals that have a coefficient.
pub proof fn lemma_dot_same(
    a: Seq<(SignalId, FS)>,
    ta: Seq<SignalView>,
    b: Seq<(SignalId, FS)>,
    tb: Seq<SignalView>,
    n: nat,
)
    requires
        lc::same_combination(a, b),
        forall|id: SignalId|
            id < n && lc::coefficient(a, id) != 0 ==> number_at(ta, id) == number_at(tb, id),
    ensures
        dot(a, ta, n) == dot(b, tb, n),
    decreases n,
{
    if n > 0 {
        let j = (n - 1) as usize;
        lemma_dot_same(a, ta, b, tb, (n - 1) as nat);
        assert(lc::coefficient(a, j) == lc::coefficient(b, j));
        if lc::coefficient(a, j) == 0 {
            assert(0 * number_at(ta, j) == 0) by (nonlinear_arith);
            assert(0 * number_at(tb, j) == 0) by (nonlinear_arith);
        }
    }
}

/// The sum of a sum of combinations is the sum of their sums.
pub proof fn lemma_dot_sum(
    a: Seq<(SignalId, FS)>,
    b: Seq<(SignalId, FS)>,
    r: Seq<(SignalId, FS)>,
    table: Seq<SignalView>,
    n: nat,
)
    requires
        lc::is_sum(a, b, r),
    ensures
        dot(r, table, n) == (dot(a, table, n) + dot(b, table, n)) % field::modulus(),
    decreases n,
{
    let m = field::modulus() as int;
    if n > 0 {
        let j = (n - 1) as usize;
        lemma_dot_sum(a, b, r, table, (n - 1) as nat);
        let x = dot(a, table, (n - 1) as nat) as int;
        let y = dot(b, table, (n - 1) as nat) as int;
        let ca = lc::coefficient(a, j) as int;
        let cb = lc::coefficient(b, j) as int;
        let v = number_at(table, j) as int;
        assert(lc::coefficient(r, j) == (ca + cb) % m);
        modular::lemma_sum_step(x, y, ca, cb, v, m);
    } else {
    }
}

/// The sum of a scaled combination is the scaled sum.
pub proof fn lemma_dot_scaled(
    a: Seq<(SignalId, FS)>,
    k: nat,
    r: Seq<(SignalId, FS)>,
    table: Seq<SignalView>,
    n: nat,
)
    requires
        lc::is_scaled(a, k, r),
    ensures
        dot(r, table, n) == (dot(a, table, n) * k) % field::modulus(),
    decreases n,
{
    let m = field::modulus() as int;
    if n > 0 {
        let j = (n - 1) as usize;
        lemma_dot_scaled(a, k, r, table, (n - 1) as nat);
        let x = dot(a, table, (n - 1) as nat) as int;
        let c = lc::coefficient(a, j) as int;
        let v = number_at(table, j) as int;
        assert(lc::coefficient(r, j) == (c * k) % m);
        modular::lemma_product_sum((x * k) % m, c, k as int, v, m);
        modular::lemma_scale_step(x, c * v, k as int, m);
        vstd::arithmetic::div_mod::lemma_mul_mod_noop_left(x, k as int, m);
        assert(c * v * k == (c * v) * k) by (nonlinear_arith);
    } else {
        assert(0 * k == 0) by (nonlinear_arith);
    }
}

pub proof fn lemma_dot_bound(terms: Seq<(SignalId, FS)>, table: Seq<SignalView>, n: nat)
    ensures
        dot(terms, table, n) < field::modulus(),
{
}

pub proof fn lemma_weighted_sum_bound(terms: Seq<(SignalId, FS)>, table: Seq<SignalView>)
    ensures
        weighted_sum(terms, table) < field::modulus(),
{
}

impl LC {
    /// Puts the table's values in place of the signals and sums up. A
    /// signal that is not in the table, or has no number for its value yet,
    /// makes it fail with `NotFound`.
    pub fn substitute<S: Signals>(&self, signals: &S) -> (r: Result<FS, Error>)
        requires
            signals.inv(),
        ensures
            r matches Ok(v) ==> assigned(self@, signals.table()) && v@ == weighted_sum(
                self@,
                signals.table(),
            ),
            assigned(self@, signals.table()) && signals.infallible() ==> r is Ok,
            r matches Err(e) ==> (e is NotFound && !assigned(self@, signals.table()))
                || !signals.infallible(),
    {
        let mut acc = FS::zero();
        let mut i: usize = 0;
        while i < self.0.len()
            invariant
                signals.inv(),
                i <= self@.len(),
                assigned(self@.take(i as int), signals.table()),
                acc@ == weighted_sum(self@.take(i as int), signals.table()),
            decreases self@.len() - i,
        {
            let id: SignalId = self.0[i].0;
            let c: FS = self.0[i].1;
            let found = match signals.get_by_id(id) {
                Ok(found) => found,
                Err(e) => {
                    return Err(e);
                },
            };
            let v: FS = match found {
                Some(s) => match s.value {
                    Some(Value::FieldScalar(f)) => f,
                    _ => {
                        assert(scalar_of(signals.table(), self@[i as int].0) is None);
                        return Err(Error::NotFound(String::from_str("signal without a value")));
                    },
                },
                None => {
                    assert(scalar_of(signals.table(), self@[i as int].0) is None);
                    return Err(Error::NotFound(String::from_str("signal")));
                },
            };
            proof {
                let before = self@.take(i as int);
                let after = self@.take(i + 1);
                assert(after.drop_last() =~= before);
                assert(after.last() == self@[i as int]);
                assert forall|k: int| 0 <= k < after.len() implies scalar_of(
                    signals.table(),
                    (#[trigger] after[k]).0,
                ) is Some by {
                    if k < i {
                        assert(after[k] == before[k]);
                    }
                }
            }
            acc = acc.add(&c.mul(&v));
            proof {
                vstd::arithmetic::div_mod::lemma_add_mod_noop_right(
                    weighted_sum(self@.take(i as int), signals.table()) as int,
                    (c@ * v@) as int,
                    field::modulus() as int,
                );
            }
            i = i + 1;
        }
        proof {
            assert(self@.take(i as int) =~= self@);
        }
        Ok(acc)
    }
}

} // verus!
