//! Sparse linear combinations of signals. The constant part of a
//! combination is its term on the signal `one`, whose identifier is 0.
use crate::algebra::field;
use crate::algebra::field::FS;
use crate::algebra::modular;
use vstd::prelude::*;

verus! {

/// A signal's identifier: its index in the signal table.
pub type SignalId = usize;

/// The identifier of the signal `one`, which carries constants.
pub const ONE: SignalId = 0;

/// The coefficient that a sequence of terms gives to a signal: the sum, in
/// the field, of the terms on that signal.
pub open spec fn coefficient(terms: Seq<(SignalId, FS)>, id: SignalId) -> nat
    decreases terms.len(),
{
    if terms.len() == 0 {
        0
    } else if terms.last().0 == id {
        (coefficient(terms.drop_last(), id) + terms.last().1@) % field::modulus()
    } else {
        coefficient(terms.drop_last(), id)
    }
}

/// Two sequences of terms that stand for the same combination.
pub open spec fn same_combination(a: Seq<(SignalId, FS)>, b: Seq<(SignalId, FS)>) -> bool {
    forall|id: SignalId| coefficient(a, id) == coefficient(b, id)
}

/// The canonical form: identifiers strictly ascending, no zero coefficient.
pub open spec fn canonical(terms: Seq<(SignalId, FS)>) -> bool {
    &&& forall|i: int, j: int| 0 <= i < j < terms.len() ==> terms[i].0 < terms[j].0
    &&& forall|i: int| 0 <= i < terms.len() ==> 0 < (#[trigger] terms[i]).1@ < field::modulus()
}

/// The canonical form of a sequence of terms.
pub open spec fn canon(terms: Seq<(SignalId, FS)>) -> Seq<(SignalId, FS)> {
    choose|r: Seq<(SignalId, FS)>| canonical(r) && same_combination(r, terms)
}

/// `r` is the sum of `a` and `b`: each coefficient is the sum of theirs.
pub open spec fn is_sum(a: Seq<(SignalId, FS)>, b: Seq<(SignalId, FS)>, r: Seq<(SignalId, FS)>) -> bool {
    forall|id: SignalId|
        coefficient(r, id) == (coefficient(a, id) + coefficient(b, id)) % field::modulus()
}

/// `r` is `a` scaled by `k`: each coefficient is `k` times that of `a`.
pub open spec fn is_scaled(a: Seq<(SignalId, FS)>, k: nat, r: Seq<(SignalId, FS)>) -> bool {
    forall|id: SignalId| coefficient(r, id) == (coefficient(a, id) * k) % field::modulus()
}

/// The sum of two combinations, in canonical form.
pub open spec fn sum(a: Seq<(SignalId, FS)>, b: Seq<(SignalId, FS)>) -> Seq<(SignalId, FS)> {
    choose|r: Seq<(SignalId, FS)>| canonical(r) && is_sum(a, b, r)
}

/// A combination scaled by `k`, in canonical form.
pub open spec fn product(a: Seq<(SignalId, FS)>, k: nat) -> Seq<(SignalId, FS)> {
    choose|r: Seq<(SignalId, FS)>| canonical(r) && is_scaled(a, k, r)
}

/// The negated combination, in canonical form.
pub open spec fn negation(a: Seq<(SignalId, FS)>) -> Seq<(SignalId, FS)> {
    product(a, (field::modulus() - 1) as nat)
}

/// The difference of two combinations, in canonical form.
pub open spec fn difference(a: Seq<(SignalId, FS)>, b: Seq<(SignalId, FS)>) -> Seq<(SignalId, FS)> {
    sum(a, negation(b))
}

/// A combination without a term on any signal but `one`.
pub open spec fn constant(terms: Seq<(SignalId, FS)>) -> bool {
    forall|id: SignalId| id != ONE ==> coefficient(terms, id) == 0
}

/// `r` holds the terms of `terms` with every coefficient multiplied by `k`.
pub open spec fn scaled(terms: Seq<(SignalId, FS)>, k: nat, r: Seq<(SignalId, FS)>) -> bool {
    &&& r.len() == terms.len()
    &&& forall|i: int|
        0 <= i < terms.len() ==> (#[trigger] r[i]).0 == terms[i].0 && r[i].1@ == (terms[i].1@ * k)
            % field::modulus()
}

pub proof fn lemma_coefficient_bound(terms: Seq<(SignalId, FS)>, id: SignalId)
    ensures
        coefficient(terms, id) < field::modulus(),
    decreases terms.len(),
{
    if terms.len() > 0 {
        lemma_coefficient_bound(terms.drop_last(), id);
    }
}

/// The coefficients of a single term.
pub proof fn lemma_coefficient_single(t: (SignalId, FS), id: SignalId)
    ensures
        coefficient(seq![t], id) == (if t.0 == id {
            t.1@ % field::modulus()
        } else {
            0
        }),
        coefficient(Seq::<(SignalId, FS)>::empty(), id) == 0,
{
    reveal_with_fuel(coefficient, 2);
    assert(seq![t].drop_last() =~= Seq::<(SignalId, FS)>::empty());
    assert(seq![t].last() == t);
}

/// Taking the next term of one operand into the merged form keeps the
/// merged form the sum of what was taken from both.
proof fn lemma_merge_one(
    r: Seq<(SignalId, FS)>,
    x: Seq<(SignalId, FS)>,
    y: Seq<(SignalId, FS)>,
    t: (SignalId, FS),
    id: SignalId,
)
    requires
        coefficient(r, id) == (coefficient(x, id) + coefficient(y, id)) % field::modulus(),
    ensures
        coefficient(r.push(t), id) == (coefficient(x.push(t), id) + coefficient(y, id))
            % field::modulus(),
        coefficient(r.push(t), id) == (coefficient(x, id) + coefficient(y.push(t), id))
            % field::modulus(),
{
    let m = field::modulus() as int;
    assert(r.push(t).drop_last() =~= r);
    assert(x.push(t).drop_last() =~= x);
    assert(y.push(t).drop_last() =~= y);
    lemma_coefficient_bound(x, id);
    lemma_coefficient_bound(y, id);
    modular::lemma_sum_regroup(
        coefficient(x, id) as int,
        coefficient(y, id) as int,
        t.1@ as int,
        0,
        m,
    );
    modular::lemma_sum_regroup(
        coefficient(y, id) as int,
        coefficient(x, id) as int,
        t.1@ as int,
        0,
        m,
    );
}

/// Taking a term of each operand on the same signal: the merged form takes
/// their sum, or nothing where the sum is zero.
proof fn lemma_merge_both(
    r: Seq<(SignalId, FS)>,
    x: Seq<(SignalId, FS)>,
    y: Seq<(SignalId, FS)>,
    tx: (SignalId, FS),
    ty: (SignalId, FS),
    sum: FS,
    id: SignalId,
)
    requires
        coefficient(r, id) == (coefficient(x, id) + coefficient(y, id)) % field::modulus(),
        tx.0 == ty.0,
        sum@ == (tx.1@ + ty.1@) % field::modulus(),
    ensures
        coefficient(r.push((tx.0, sum)), id) == (coefficient(x.push(tx), id) + coefficient(
            y.push(ty),
            id,
        )) % field::modulus(),
        sum@ == 0 ==> coefficient(r, id) == (coefficient(x.push(tx), id) + coefficient(
            y.push(ty),
            id,
        )) % field::modulus(),
{
    let m = field::modulus() as int;
    assert(r.push((tx.0, sum)).drop_last() =~= r);
    assert(x.push(tx).drop_last() =~= x);
    assert(y.push(ty).drop_last() =~= y);
    lemma_coefficient_bound(r, id);
    modular::lemma_sum_regroup(
        coefficient(x, id) as int,
        coefficient(y, id) as int,
        tx.1@ as int,
        ty.1@ as int,
        m,
    );
}

/// A signal that no term names has coefficient zero.
pub proof fn lemma_coefficient_absent(terms: Seq<(SignalId, FS)>, id: SignalId)
    requires
        forall|i: int| 0 <= i < terms.len() ==> (#[trigger] terms[i]).0 != id,
    ensures
        coefficient(terms, id) == 0,
    decreases terms.len(),
{
    if terms.len() > 0 {
        let rest = terms.drop_last();
        assert forall|i: int| 0 <= i < rest.len() implies (#[trigger] rest[i]).0 != id by {
            assert(rest[i] == terms[i]);
        }
        lemma_coefficient_absent(rest, id);
    }
}

/// In a canonical form the coefficient of a named signal is that of its term.
pub proof fn lemma_coefficient_at(terms: Seq<(SignalId, FS)>, i: int)
    requires
        canonical(terms),
        0 <= i < terms.len(),
    ensures
        coefficient(terms, terms[i].0) == terms[i].1@,
    decreases terms.len(),
{
    let rest = terms.drop_last();
    assert forall|a: int, b: int| 0 <= a < b < rest.len() implies rest[a].0 < rest[b].0 by {
        assert(rest[a] == terms[a] && rest[b] == terms[b]);
    }
    assert forall|a: int| 0 <= a < rest.len() implies 0 < (#[trigger] rest[a]).1@
        < field::modulus() by {
        assert(rest[a] == terms[a]);
    }
    if i == terms.len() - 1 {
        assert forall|a: int| 0 <= a < rest.len() implies (#[trigger] rest[a]).0 != terms[i].0 by {
            assert(rest[a] == terms[a]);
        }
        lemma_coefficient_absent(rest, terms[i].0);
    } else {
        assert(rest[i] == terms[i]);
        lemma_coefficient_at(rest, i);
    }
}

/// The coefficients of a concatenation are the sums of the parts' coefficients.
pub proof fn lemma_coefficient_concat(x: Seq<(SignalId, FS)>, y: Seq<(SignalId, FS)>, id: SignalId)
    ensures
        coefficient(x + y, id) == (coefficient(x, id) + coefficient(y, id)) % field::modulus(),
    decreases y.len(),
{
    lemma_coefficient_bound(x, id);
    if y.len() == 0 {
        assert(x + y =~= x);
    } else {
        let rest = y.drop_last();
        assert((x + y).drop_last() =~= x + rest);
        lemma_coefficient_concat(x, rest, id);
        modular::lemma_sum_regroup(
            coefficient(x, id) as int,
            coefficient(rest, id) as int,
            y.last().1@ as int,
            0,
            field::modulus() as int,
        );
    }
}

/// Scaling every term scales every coefficient.
pub proof fn lemma_coefficient_scaled(
    terms: Seq<(SignalId, FS)>,
    r: Seq<(SignalId, FS)>,
    k: nat,
    id: SignalId,
)
    requires
        scaled(terms, k, r),
    ensures
        coefficient(r, id) == (coefficient(terms, id) * k) % field::modulus(),
    decreases terms.len(),
{
    let m = field::modulus() as int;
    if terms.len() == 0 {
        assert(0 * k == 0) by (nonlinear_arith);
    } else {
        let rest = terms.drop_last();
        let r_rest = r.drop_last();
        assert(scaled(rest, k, r_rest)) by {
            assert forall|i: int| 0 <= i < rest.len() implies (#[trigger] r_rest[i]).0 == rest[i].0
                && r_rest[i].1@ == (rest[i].1@ * k) % field::modulus() by {
                assert(r_rest[i] == r[i] && rest[i] == terms[i]);
            }
        }
        lemma_coefficient_scaled(rest, r_rest, k, id);
        assert(r.last() == r[terms.len() - 1]);
        if terms.last().0 == id {
            modular::lemma_scale_sum(
                coefficient(rest, id) as int,
                terms.last().1@ as int,
                k as int,
                m,
            );
            modular::lemma_sum_regroup(
                (coefficient(rest, id) * k) as int,
                0,
                0,
                (terms.last().1@ * k) as int,
                m,
            );
            lemma_coefficient_bound(r_rest, id);
        }
    }
}

/// A combination has one canonical form only.
pub proof fn lemma_canonical_unique(a: Seq<(SignalId, FS)>, b: Seq<(SignalId, FS)>)
    requires
        canonical(a),
        canonical(b),
        same_combination(a, b),
    ensures
        a == b,
    decreases a.len() + b.len(),
{
    if a.len() == 0 && b.len() == 0 {
        assert(a =~= b);
    } else if a.len() == 0 {
        lemma_coefficient_at(b, b.len() - 1);
        assert(coefficient(a, b.last().0) == 0);
    } else if b.len() == 0 {
        lemma_coefficient_at(a, a.len() - 1);
        assert(coefficient(b, a.last().0) == 0);
    } else {
        let ta = a.last();
        let tb = b.last();
        lemma_coefficient_at(a, a.len() - 1);
        lemma_coefficient_at(b, b.len() - 1);
        if ta.0 > tb.0 {
            lemma_coefficient_absent(b, ta.0);
        } else if tb.0 > ta.0 {
            lemma_coefficient_absent(a, tb.0);
        } else {
            ta.1.lemma_view_injective(tb.1);
            let ra = a.drop_last();
            let rb = b.drop_last();
            lemma_canonical_prefix(a, a.len() - 1);
            lemma_canonical_prefix(b, b.len() - 1);
            assert(a.take(a.len() - 1) =~= ra);
            assert(b.take(b.len() - 1) =~= rb);
            assert forall|id: SignalId| coefficient(ra, id) == coefficient(rb, id) by {
                if id == ta.0 {
                    assert forall|i: int| 0 <= i < ra.len() implies (#[trigger] ra[i]).0 != id by {
                        assert(ra[i] == a[i]);
                    }
                    assert forall|i: int| 0 <= i < rb.len() implies (#[trigger] rb[i]).0 != id by {
                        assert(rb[i] == b[i]);
                    }
                    lemma_coefficient_absent(ra, id);
                    lemma_coefficient_absent(rb, id);
                } else {
                    assert(coefficient(a, id) == coefficient(b, id));
                }
            }
            lemma_canonical_unique(ra, rb);
            assert(a =~= ra.push(ta));
            assert(b =~= rb.push(tb));
        }
    }
}

/// The canonical form with given coefficients on the signals below `n`.
pub open spec fn build(f: spec_fn(SignalId) -> nat, n: nat) -> Seq<(SignalId, FS)>
    decreases n,
{
    if n == 0 {
        Seq::empty()
    } else if f((n - 1) as usize) == 0 {
        build(f, (n - 1) as nat)
    } else {
        build(f, (n - 1) as nat).push(((n - 1) as usize, FS::of(f((n - 1) as usize))))
    }
}

/// What `build` gives is canonical and has the coefficients it was given.
pub proof fn lemma_build(f: spec_fn(SignalId) -> nat, n: nat)
    requires
        n <= usize::MAX + 1,
        forall|id: SignalId| #[trigger] f(id) < field::modulus(),
    ensures
        canonical(build(f, n)),
        forall|k: int| 0 <= k < build(f, n).len() ==> (#[trigger] build(f, n)[k]).0 < n,
        forall|id: SignalId|
            coefficient(build(f, n), id) == (if id < n {
                f(id)
            } else {
                0
            }),
    decreases n,
{
    let r = build(f, n);
    if n > 0 {
        let j = (n - 1) as usize;
        let rest = build(f, (n - 1) as nat);
        lemma_build(f, (n - 1) as nat);
        if f(j) != 0 {
            let t = (j, FS::of(f(j)));
            FS::lemma_of(f(j));
            assert(r.drop_last() =~= rest);
            assert(r.last() == t);
            assert forall|a: int, b: int| 0 <= a < b < r.len() implies r[a].0 < r[b].0 by {
                assert(r[a] == rest[a]);
                if b < rest.len() {
                    assert(r[b] == rest[b]);
                }
            }
            assert forall|a: int| 0 <= a < r.len() implies 0 < (#[trigger] r[a]).1@
                < field::modulus() by {
                if a < rest.len() {
                    assert(r[a] == rest[a]);
                }
            }
            assert forall|k: int| 0 <= k < r.len() implies (#[trigger] r[k]).0 < n by {
                if k < rest.len() {
                    assert(r[k] == rest[k]);
                }
            }
            assert forall|id: SignalId|
                coefficient(r, id) == (if id < n {
                    f(id)
                } else {
                    0
                }) by {
                assert(coefficient(rest, j) == 0);
                assert(t.1@ == f(j));
                assert(f(j) < field::modulus());
                assert(r.len() > 0);
                assert(coefficient(r, id) == (if t.0 == id {
                    (coefficient(rest, id) + t.1@) % field::modulus()
                } else {
                    coefficient(rest, id)
                }));
                vstd::arithmetic::div_mod::lemma_small_mod(f(j), field::modulus());
                if id != j {
                    assert(coefficient(rest, id) == (if id < n - 1 {
                        f(id)
                    } else {
                        0
                    }));
                }
            }
        } else {
            assert forall|id: SignalId|
                coefficient(r, id) == (if id < n {
                    f(id)
                } else {
                    0
                }) by {
                assert(coefficient(rest, j) == 0);
            }
        }
    }
}

/// Every combination of coefficients has a canonical form.
pub proof fn lemma_defined(f: spec_fn(SignalId) -> nat) -> (r: Seq<(SignalId, FS)>)
    requires
        forall|id: SignalId| #[trigger] f(id) < field::modulus(),
    ensures
        canonical(r),
        forall|id: SignalId| coefficient(r, id) == f(id),
{
    lemma_build(f, (usize::MAX + 1) as nat);
    build(f, (usize::MAX + 1) as nat)
}

/// The canonical form of a sequence of terms is canonical and stands for
/// the same combination.
pub proof fn lemma_canon_defined(terms: Seq<(SignalId, FS)>)
    ensures
        canonical(canon(terms)),
        same_combination(canon(terms), terms),
{
    assert forall|id: SignalId| coefficient(terms, id) < field::modulus() by {
        lemma_coefficient_bound(terms, id);
    }
    let r = lemma_defined(|id: SignalId| coefficient(terms, id));
    assert(canonical(r) && same_combination(r, terms));
}

/// The sum of two combinations is canonical and has the sums of their
/// coefficients.
pub proof fn lemma_sum_defined(a: Seq<(SignalId, FS)>, b: Seq<(SignalId, FS)>)
    ensures
        canonical(sum(a, b)),
        is_sum(a, b, sum(a, b)),
{
    let r = lemma_defined(
        |id: SignalId| (coefficient(a, id) + coefficient(b, id)) % field::modulus(),
    );
    assert(canonical(r) && is_sum(a, b, r));
}

/// A scaled combination is canonical and has the scaled coefficients.
pub proof fn lemma_product_defined(a: Seq<(SignalId, FS)>, k: nat)
    ensures
        canonical(product(a, k)),
        is_scaled(a, k, product(a, k)),
{
    let r = lemma_defined(|id: SignalId| (coefficient(a, id) * k) % field::modulus());
    assert(canonical(r) && is_scaled(a, k, r));
}

/// A signal with a coefficient other than zero is named by a term.
pub proof fn lemma_occurs(terms: Seq<(SignalId, FS)>, id: SignalId)
    requires
        coefficient(terms, id) != 0,
    ensures
        exists|k: int| 0 <= k < terms.len() && (#[trigger] terms[k]).0 == id,
{
    if forall|k: int| 0 <= k < terms.len() ==> (#[trigger] terms[k]).0 != id {
        lemma_coefficient_absent(terms, id);
    }
}

/// A canonical form of the terms is the canonical form.
pub proof fn lemma_canon(terms: Seq<(SignalId, FS)>, r: Seq<(SignalId, FS)>)
    requires
        canonical(r),
        same_combination(r, terms),
    ensures
        canon(terms) == r,
{
    let c = canon(terms);
    assert(canonical(c) && same_combination(c, terms));
    lemma_canonical_unique(c, r);
}

/// A canonical form with the coefficients of the sum is the sum.
pub proof fn lemma_sum(a: Seq<(SignalId, FS)>, b: Seq<(SignalId, FS)>, r: Seq<(SignalId, FS)>)
    requires
        canonical(r),
        is_sum(a, b, r),
    ensures
        sum(a, b) == r,
{
    let c = sum(a, b);
    assert(canonical(c) && is_sum(a, b, c));
    lemma_canonical_unique(c, r);
}

/// A canonical form with the coefficients of the scaled combination is it.
pub proof fn lemma_product(a: Seq<(SignalId, FS)>, k: nat, r: Seq<(SignalId, FS)>)
    requires
        canonical(r),
        is_scaled(a, k, r),
    ensures
        product(a, k) == r,
{
    let c = product(a, k);
    assert(canonical(c) && is_scaled(a, k, c));
    lemma_canonical_unique(c, r);
}

/// Every prefix of a canonical form is canonical.
pub proof fn lemma_canonical_prefix(terms: Seq<(SignalId, FS)>, n: int)
    requires
        canonical(terms),
        0 <= n <= terms.len(),
    ensures
        canonical(terms.take(n)),
{
    let p = terms.take(n);
    assert forall|i: int, j: int| 0 <= i < j < p.len() implies p[i].0 < p[j].0 by {
        assert(p[i] == terms[i] && p[j] == terms[j]);
    }
    assert forall|i: int| 0 <= i < p.len() implies 0 < (#[trigger] p[i]).1@ < field::modulus() by {
        assert(p[i] == terms[i]);
    }
}

/// Merges two canonical forms into the canonical form of their sum.
fn merge(a: &Vec<(SignalId, FS)>, b: &Vec<(SignalId, FS)>) -> (r: Vec<(SignalId, FS)>)
    requires
        canonical(a@),
        canonical(b@),
    ensures
        canonical(r@),
        forall|id: SignalId|
            coefficient(r@, id) == (coefficient(a@, id) + coefficient(b@, id)) % field::modulus(),
{
    let ghost m = field::modulus();
    let mut r: Vec<(SignalId, FS)> = Vec::new();
    let mut i: usize = 0;
    let mut j: usize = 0;
    while i < a.len() || j < b.len()
        invariant
            m == field::modulus(),
            i <= a@.len(),
            j <= b@.len(),
            canonical(a@),
            canonical(b@),
            canonical(r@),
            forall|k: int| 0 <= k < r@.len() && i < a@.len() ==> (#[trigger] r@[k]).0 < a@[i as int].0,
            forall|k: int| 0 <= k < r@.len() && j < b@.len() ==> (#[trigger] r@[k]).0 < b@[j as int].0,
            forall|id: SignalId|
                coefficient(r@, id) == (coefficient(a@.take(i as int), id) + coefficient(
                    b@.take(j as int),
                    id,
                )) % m,
        decreases (a@.len() - i) + (b@.len() - j),
    {
        let ghost r0 = r@;
        let ghost a0 = a@.take(i as int);
        let ghost b0 = b@.take(j as int);
        let take_a: bool = j >= b.len() || (i < a.len() && a[i].0 < b[j].0);
        let take_b: bool = i >= a.len() || (j < b.len() && b[j].0 < a[i].0);
        if take_a {
            let t = a[i];
            r.push(t);
            i = i + 1;
            proof {
                assert(a@.take(i as int) =~= a0.push(t));
                assert forall|id: SignalId|
                    coefficient(r@, id) == (coefficient(a0.push(t), id) + coefficient(b0, id))
                        % m by {
                    lemma_merge_one(r0, a0, b0, t, id);
                }
            }
        } else if take_b {
            let t = b[j];
            r.push(t);
            j = j + 1;
            proof {
                assert(b@.take(j as int) =~= b0.push(t));
                assert forall|id: SignalId|
                    coefficient(r@, id) == (coefficient(a0, id) + coefficient(b0.push(t), id))
                        % m by {
                    lemma_merge_one(r0, a0, b0, t, id);
                }
            }
        } else {
            let ta = a[i];
            let tb = b[j];
            let sum = ta.1.add(&tb.1);
            if !sum.is_zero() {
                sum.bounded();
                r.push((ta.0, sum));
            }
            i = i + 1;
            j = j + 1;
            proof {
                assert(a@.take(i as int) =~= a0.push(ta));
                assert(b@.take(j as int) =~= b0.push(tb));
                assert forall|id: SignalId|
                    coefficient(r@, id) == (coefficient(a0.push(ta), id) + coefficient(
                        b0.push(tb),
                        id,
                    )) % m by {
                    lemma_merge_both(r0, a0, b0, ta, tb, sum, id);
                }
            }
        }
    }
    proof {
        assert(a@.take(i as int) =~= a@);
        assert(b@.take(j as int) =~= b@);
    }
    r
}

/// The canonical form of the terms from `lo` up to `hi`, by halving and merging.
fn canonize_range(terms: &Vec<(SignalId, FS)>, lo: usize, hi: usize) -> (r: Vec<(SignalId, FS)>)
    requires
        lo <= hi <= terms@.len(),
    ensures
        canonical(r@),
        same_combination(r@, terms@.subrange(lo as int, hi as int)),
    decreases hi - lo,
{
    let ghost part = terms@.subrange(lo as int, hi as int);
    if hi - lo == 0 {
        Vec::new()
    } else if hi - lo == 1 {
        let t = terms[lo];
        let mut r: Vec<(SignalId, FS)> = Vec::new();
        proof {
            assert(part =~= seq![t]);
            assert forall|id: SignalId| coefficient(part, id) == (if t.0 == id {
                t.1@ % field::modulus()
            } else {
                0
            }) by {
                lemma_coefficient_single(t, id);
            }
        }
        if !t.1.is_zero() {
            t.1.bounded();
            r.push(t);
            proof {
                assert(r@ =~= part);
            }
        }
        r
    } else {
        let mid: usize = lo + (hi - lo) / 2;
        let left = canonize_range(terms, lo, mid);
        let right = canonize_range(terms, mid, hi);
        let r = merge(&left, &right);
        proof {
            let x = terms@.subrange(lo as int, mid as int);
            let y = terms@.subrange(mid as int, hi as int);
            assert(part =~= x + y);
            assert forall|id: SignalId| coefficient(r@, id) == coefficient(part, id) by {
                lemma_coefficient_concat(x, y, id);
            }
        }
        r
    }
}

/// A linear combination: a list of terms, each a signal with its coefficient.
/// The same signal may stand in several terms; what counts is the sum.
#[derive(Debug)]
pub struct LC(pub Vec<(SignalId, FS)>);

impl Clone for LC {
    fn clone(&self) -> (r: LC)
        ensures
            r@ == self@,
    {
        let mut terms: Vec<(SignalId, FS)> = Vec::new();
        let mut i: usize = 0;
        while i < self.0.len()
            invariant
                i <= self@.len(),
                terms@ == self@.take(i as int),
            decreases self@.len() - i,
        {
            terms.push(self.0[i]);
            proof {
                assert(terms@ =~= self@.take(i + 1));
            }
            i = i + 1;
        }
        proof {
            assert(self@.take(i as int) =~= self@);
        }
        LC(terms)
    }
}

impl View for LC {
    type V = Seq<(SignalId, FS)>;

    open spec fn view(&self) -> Seq<(SignalId, FS)> {
        self.0@
    }
}

impl LC {
    /// The combination without terms.
    pub fn new() -> (r: LC)
        ensures
            r@ == Seq::<(SignalId, FS)>::empty(),
    {
        LC(Vec::new())
    }

    /// The combination that is one signal.
    pub fn from_signal(id: SignalId) -> (r: LC)
        ensures
            r@ == seq![(id, FS::of(1))],
            canonical(r@),
    {
        proof {
            FS::lemma_of(1);
        }
        let mut terms: Vec<(SignalId, FS)> = Vec::new();
        let one = FS::one();
        terms.push((id, one));
        proof {
            one.lemma_view_injective(FS::of(1));
            assert(terms@ =~= seq![(id, FS::of(1))]);
        }
        LC(terms)
    }

    /// The combination that is a constant: a term on `one`, or no term for zero.
    pub fn from_constant(value: &FS) -> (r: LC)
        ensures
            canonical(r@),
            constant(r@),
            coefficient(r@, ONE) == value@,
            value@ == 0 ==> r@.len() == 0,
            value@ != 0 ==> r@ == seq![(ONE, *value)],
    {
        let mut terms: Vec<(SignalId, FS)> = Vec::new();
        if !value.is_zero() {
            value.bounded();
            terms.push((ONE, *value));
            proof {
                assert(terms@ =~= seq![(ONE, *value)]);
            }
        }
        proof {
            assert forall|id: SignalId|
                coefficient(terms@, id) == (if id == ONE {
                    value@
                } else {
                    0
                }) by {
                lemma_coefficient_single((ONE, *value), id);
            }
        }
        LC(terms)
    }

    /// The number of terms as written.
    pub fn len(&self) -> (n: usize)
        ensures
            n == self@.len(),
    {
        self.0.len()
    }

    /// The coefficient of a signal.
    pub fn coefficient_of(&self, id: SignalId) -> (r: FS)
        ensures
            r@ == coefficient(self@, id),
    {
        let mut acc = FS::zero();
        let mut i: usize = 0;
        while i < self.0.len()
            invariant
                i <= self@.len(),
                acc@ == coefficient(self@.take(i as int), id),
            decreases self@.len() - i,
        {
            proof {
                assert(self@.take(i + 1).drop_last() =~= self@.take(i as int));
            }
            if self.0[i].0 == id {
                acc = acc.add(&self.0[i].1);
            }
            i = i + 1;
        }
        proof {
            assert(self@.take(i as int) =~= self@);
        }
        acc
    }

    /// Whether the terms are in canonical form as written.
    pub fn is_canonical(&self) -> (r: bool)
        ensures
            r == canonical(self@),
    {
        let mut i: usize = 0;
        while i < self.0.len()
            invariant
                i <= self@.len(),
                canonical(self@.take(i as int)),
            decreases self@.len() - i,
        {
            let t = self.0[i];
            let ghost before = self@.take(i as int);
            let ghost after = self@.take(i + 1);
            if t.1.is_zero() || (i > 0 && self.0[i - 1].0 >= t.0) {
                proof {
                    if canonical(self@) {
                        assert(0 < (#[trigger] self@[i as int]).1@);
                    }
                }
                return false;
            }
            t.1.bounded();
            proof {
                assert forall|a: int, b: int| 0 <= a < b < after.len() implies after[a].0
                    < after[b].0 by {
                    if b < i {
                        assert(before[a] == after[a] && before[b] == after[b]);
                    } else if a < i - 1 {
                        assert(before[a] == after[a] && before[i - 1] == after[i - 1]);
                    }
                }
                assert forall|a: int| 0 <= a < after.len() implies 0 < (#[trigger] after[a]).1@
                    < field::modulus() by {
                    if a < i {
                        assert(before[a] == after[a]);
                    }
                }
            }
            i = i + 1;
        }
        proof {
            assert(self@.take(i as int) =~= self@);
        }
        true
    }

    /// The canonical form: duplicate signals summed, zero terms dropped,
    /// terms in ascending order of identifier.
    pub fn canonize(&self) -> (r: LC)
        ensures
            canonical(r@),
            same_combination(r@, self@),
            r@ == canon(self@),
    {
        let r = canonize_range(&self.0, 0, self.0.len());
        proof {
            assert(self@.subrange(0, self@.len() as int) =~= self@);
            lemma_canon(self@, r@);
        }
        LC(r)
    }

    /// The sum, in canonical form.
    pub fn add(&self, other: &LC) -> (r: LC)
        ensures
            canonical(r@),
            is_sum(self@, other@, r@),
            r@ == sum(self@, other@),
    {
        let a = self.canonize();
        let b = other.canonize();
        let r = LC(merge(&a.0, &b.0));
        proof {
            lemma_sum(self@, other@, r@);
        }
        r
    }

    /// The combination with every coefficient multiplied by `k`, in canonical form.
    pub fn scale(&self, k: &FS) -> (r: LC)
        ensures
            canonical(r@),
            is_scaled(self@, k@, r@),
            r@ == product(self@, k@),
    {
        let mut terms: Vec<(SignalId, FS)> = Vec::new();
        let mut i: usize = 0;
        while i < self.0.len()
            invariant
                i <= self@.len(),
                scaled(self@.take(i as int), k@, terms@),
            decreases self@.len() - i,
        {
            let t = self.0[i];
            terms.push((t.0, t.1.mul(k)));
            i = i + 1;
        }
        let r = LC(terms).canonize();
        proof {
            assert(self@.take(i as int) =~= self@);
            assert forall|id: SignalId|
                coefficient(r@, id) == (coefficient(self@, id) * k@) % field::modulus() by {
                lemma_coefficient_scaled(self@, terms@, k@, id);
            }
            lemma_product(self@, k@, r@);
        }
        r
    }

    /// The negated combination, in canonical form.
    pub fn neg(&self) -> (r: LC)
        ensures
            canonical(r@),
            forall|id: SignalId|
                coefficient(r@, id) == (-(coefficient(self@, id) as int)) % (field::modulus() as int),
            r@ == negation(self@),
    {
        let minus_one = FS::one().neg();
        let r = self.scale(&minus_one);
        proof {
            assert forall|id: SignalId|
                coefficient(r@, id) == (-(coefficient(self@, id) as int)) % (
                field::modulus() as int) by {
                modular::lemma_scale_by_minus_one(
                    coefficient(self@, id) as int,
                    field::modulus() as int,
                );
            }
            assert(minus_one@ == field::modulus() - 1);
        }
        r
    }

    /// The difference, in canonical form.
    pub fn sub(&self, other: &LC) -> (r: LC)
        ensures
            canonical(r@),
            forall|id: SignalId|
                coefficient(r@, id) == (coefficient(self@, id) - coefficient(other@, id)) % (
                field::modulus() as int),
            r@ == difference(self@, other@),
    {
        let n = other.neg();
        let r = self.add(&n);
        proof {
            assert forall|id: SignalId|
                coefficient(r@, id) == (coefficient(self@, id) - coefficient(other@, id)) % (
                field::modulus() as int) by {
                vstd::arithmetic::div_mod::lemma_add_mod_noop_right(
                    coefficient(self@, id) as int,
                    -(coefficient(other@, id) as int),
                    field::modulus() as int,
                );
            }
        }
        r
    }

    /// Whether the combination is a constant: no signal but `one` has a
    /// coefficient other than zero.
    pub fn is_constant(&self) -> (r: bool)
        ensures
            r == constant(self@),
    {
        let c = self.canonize();
        let r = c.0.len() == 0 || (c.0.len() == 1 && c.0[0].0 == ONE);
        proof {
            if r {
                assert forall|id: SignalId| id != ONE implies coefficient(self@, id) == 0 by {
                    lemma_coefficient_absent(c@, id);
                }
            } else {
                let k: int = if c@[0].0 != ONE {
                    0
                } else {
                    1
                };
                lemma_coefficient_at(c@, k);
                assert(c@[k].0 != ONE);
                assert(coefficient(self@, c@[k].0) != 0);
            }
        }
        r
    }

    /// Whether two combinations are the same: every signal has the same
    /// coefficient in both.
    pub fn equals(&self, other: &LC) -> (r: bool)
        ensures
            r == same_combination(self@, other@),
    {
        let a = self.canonize();
        let b = other.canonize();
        if a.0.len() != b.0.len() {
            proof {
                if same_combination(self@, other@) {
                    lemma_canonical_unique(a@, b@);
                }
            }
            return false;
        }
        let mut i: usize = 0;
        while i < a.0.len()
            invariant
                i <= a@.len(),
                a@.len() == b@.len(),
                canonical(a@),
                canonical(b@),
                same_combination(a@, self@),
                same_combination(b@, other@),
                a@.take(i as int) == b@.take(i as int),
            decreases a@.len() - i,
        {
            if a.0[i].0 != b.0[i].0 || !a.0[i].1.equals(&b.0[i].1) {
                proof {
                    if same_combination(self@, other@) {
                        lemma_canonical_unique(a@, b@);
                    }
                }
                return false;
            }
            proof {
                a@[i as int].1.lemma_view_injective(b@[i as int].1);
                assert(a@.take(i + 1) =~= a@.take(i as int).push(a@[i as int]));
                assert(b@.take(i + 1) =~= b@.take(i as int).push(b@[i as int]));
            }
            i = i + 1;
        }
        proof {
            assert(a@.take(i as int) =~= a@);
            assert(b@.take(i as int) =~= b@);
        }
        true
    }
}

} // verus!
