//! Facts of modular arithmetic that the field operations rest on.
use vstd::arithmetic::div_mod::*;
use vstd::prelude::*;

verus! {

/// One round of multiplication by doubling leaves the pending product
/// unchanged: with `k` halved and the addend doubled, the accumulator takes
/// the addend exactly when `k` was odd.
pub proof fn lemma_double_and_add(acc: int, d: int, k: int, m: int)
    requires
        m > 0,
        k >= 0,
    ensures
        k % 2 == 1 ==> ((acc + d) % m + ((d + d) % m) * (k / 2)) % m == (acc + d * k) % m,
        k % 2 == 0 ==> (acc + ((d + d) % m) * (k / 2)) % m == (acc + d * k) % m,
{
    let h = k / 2;
    let x = ((d + d) % m) * h;
    lemma_mul_mod_noop_left(d + d, h, m);
    assert((d + d) * h == d * (2 * h)) by (nonlinear_arith);
    if k % 2 == 1 {
        assert(d * k == d + d * (2 * h)) by (nonlinear_arith)
            requires
                k == 2 * h + 1,
        ;
        lemma_add_mod_noop((acc + d) % m, x, m);
        lemma_mod_twice(acc + d, m);
        lemma_add_mod_noop(acc + d, (d + d) * h, m);
    } else {
        assert(d * k == d * (2 * h)) by (nonlinear_arith)
            requires
                k == 2 * h,
        ;
        lemma_add_mod_noop_right(acc, x, m);
        lemma_add_mod_noop_right(acc, (d + d) * h, m);
    }
}

/// A congruence between even quantities can be halved when the modulus is odd.
pub proof fn lemma_halve_congruence(x: int, a: int, u: int, m: int)
    requires
        m > 0,
        m % 2 == 1,
        u % 2 == 0,
        ((2 * x) * a) % m == u % m,
    ensures
        (x * a) % m == (u / 2) % m,
{
    let t = x * a - u / 2;
    let c = (m + 1) / 2;
    assert((2 * x) * a - u == 2 * t) by (nonlinear_arith)
        requires
            t == x * a - u / 2,
            u % 2 == 0,
    ;
    lemma_mod_equivalence((2 * x) * a, u, m);
    let q = (2 * t) / m;
    lemma_fundamental_div_mod(2 * t, m);
    assert(t == (q * c - t) * m) by (nonlinear_arith)
        requires
            2 * t == m * q,
            2 * c == m + 1,
    ;
    lemma_mod_multiples_basic(q * c - t, m);
    lemma_mod_equivalence(x * a, u / 2, m);
}

/// The difference of two congruences.
pub proof fn lemma_subtract_congruence(x1: int, x2: int, a: int, u: int, v: int, m: int)
    requires
        m > 0,
        (x1 * a) % m == u % m,
        (x2 * a) % m == v % m,
    ensures
        (((x1 - x2) % m) * a) % m == (u - v) % m,
{
    lemma_mul_mod_noop_left(x1 - x2, a, m);
    assert((x1 - x2) * a == x1 * a - x2 * a) by (nonlinear_arith);
    lemma_sub_mod_noop(x1 * a, x2 * a, m);
    lemma_sub_mod_noop(u, v, m);
}

/// A number that shares a factor above one with the modulus has no inverse.
pub proof fn lemma_common_factor_no_inverse(a: int, m: int, g: int, s: int, t: int, y: int)
    requires
        m > 0,
        g >= 2,
        a == s * g,
        m == t * g,
    ensures
        (y * a) % m != 1,
{
    if (y * a) % m == 1 {
        let q = (y * a) / m;
        lemma_fundamental_div_mod(y * a, m);
        let z = y * s - q * t;
        assert(g * z == 1) by (nonlinear_arith)
            requires
                y * a == m * q + 1,
                a == s * g,
                m == t * g,
                z == y * s - q * t,
        ;
        assert(false) by (nonlinear_arith)
            requires
                g >= 2,
                g * z == 1,
        ;
    }
}

/// Sums may be reduced part by part, in any grouping.
pub proof fn lemma_sum_regroup(x: int, y: int, s: int, t: int, m: int)
    requires
        m > 0,
    ensures
        ((x + s) % m + (y + t) % m) % m == (x + y + s + t) % m,
        ((x + y) % m + (s + t) % m) % m == (x + y + s + t) % m,
        ((x + y) % m + s) % m == ((x + s) % m + y) % m,
        (x + (y + s) % m) % m == ((x + y) % m + s) % m,
{
    lemma_add_mod_noop(x + s, y + t, m);
    lemma_add_mod_noop(x + y, s + t, m);
    lemma_add_mod_noop_right(s, x + y, m);
    lemma_add_mod_noop_right(y, x + s, m);
    lemma_add_mod_noop_right(x, y + s, m);
}

/// Scaling a reduced sum: the factor may be applied to each part.
pub proof fn lemma_scale_sum(x: int, t: int, k: int, m: int)
    requires
        m > 0,
    ensures
        (((x + t) % m) * k) % m == ((x * k) % m + (t * k) % m) % m,
{
    lemma_mul_mod_noop_left(x + t, k, m);
    assert((x + t) * k == x * k + t * k) by (nonlinear_arith);
    lemma_add_mod_noop(x * k, t * k, m);
}

/// Multiplying by the modulus less one negates.
pub proof fn lemma_scale_by_minus_one(x: int, m: int)
    requires
        m > 0,
    ensures
        (x * (m - 1)) % m == (-x) % m,
{
    assert(x * (m - 1) == m * x + (-x)) by (nonlinear_arith);
    lemma_mod_multiples_vanish(x, -x, m);
}

/// A product may take either factor reduced, and a sum of products may be
/// reduced part by part.
pub proof fn lemma_product_sum(x: int, c: int, d: int, v: int, m: int)
    requires
        m > 0,
    ensures
        (x + ((c + d) % m) * v) % m == ((x + c * v) % m + d * v) % m,
        (x + ((c * d) % m) * v) % m == (x + c * v * d) % m,
{
    lemma_mul_mod_noop_left(c + d, v, m);
    assert((c + d) * v == c * v + d * v) by (nonlinear_arith);
    lemma_add_mod_noop_right(x, ((c + d) % m) * v, m);
    lemma_add_mod_noop_right(x, (c + d) * v, m);
    lemma_add_mod_noop_right(d * v, x + c * v, m);
    lemma_mul_mod_noop_left(c * d, v, m);
    assert((c * d) * v == c * v * d) by (nonlinear_arith);
    lemma_add_mod_noop_right(x, ((c * d) % m) * v, m);
    lemma_add_mod_noop_right(x, (c * d) * v, m);
}

/// Two sums of products, added up with their last products still apart or
/// with the last coefficients added first.
pub proof fn lemma_sum_step(x: int, y: int, c: int, d: int, v: int, m: int)
    requires
        m > 0,
    ensures
        ((x + y) % m + ((c + d) % m) * v) % m == ((x + c * v) % m + (y + d * v) % m) % m,
{
    let a = x + y;
    let b = ((c + d) % m) * v;
    let b2 = (c + d) * v;
    lemma_mul_mod_noop_left(c + d, v, m);
    lemma_add_mod_noop(a % m, b, m);
    lemma_add_mod_noop(a, b2, m);
    lemma_mod_twice(a, m);
    assert(b2 == c * v + d * v) by (nonlinear_arith)
        requires
            b2 == (c + d) * v,
    ;
    lemma_add_mod_noop(x + c * v, y + d * v, m);
}

/// Scaling a reduced sum, with one more product in it.
pub proof fn lemma_scale_step(x: int, y: int, k: int, m: int)
    requires
        m > 0,
    ensures
        (((x % m) * k) % m + y * k) % m == (((x + y) % m) * k) % m,
{
    lemma_mul_mod_noop_left(x, k, m);
    lemma_mul_mod_noop_left(x + y, k, m);
    assert((x + y) * k == x * k + y * k) by (nonlinear_arith);
    lemma_add_mod_noop_right(y * k, x * k, m);
}

/// A number and its reduced negation cancel.
pub proof fn lemma_cancel(z: int, m: int)
    requires
        m > 0,
    ensures
        (z + ((z % m) * (m - 1)) % m) % m == 0,
{
    lemma_mul_mod_noop_left(z, m - 1, m);
    lemma_add_mod_noop_right(z, z * (m - 1), m);
    assert(z + z * (m - 1) == z * m) by (nonlinear_arith);
    lemma_mod_multiples_basic(z, m);
}

} // verus!
