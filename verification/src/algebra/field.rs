//! Elements of the scalar field of the curve group: the integers modulo a
//! 254-bit prime, with exact modular arithmetic.
use crate::algebra::error::Error;
use crate::algebra::modular;
use crate::algebra::wide;
use crate::algebra::wide::U256;
use vstd::arithmetic::div_mod::*;
use vstd::prelude::*;

verus! {

/// Upper half of the modulus.
pub const MODULUS_HI: u128 = 0x30644e72e131a029b85045b68181585d;

/// Lower half of the modulus.
pub const MODULUS_LO: u128 = 0x2833e84879b9709143e1f593f0000001;

/// The order of the scalar field.
pub open spec fn modulus() -> nat {
    21888242871839275222246405745257275088548364400416034343698204186575808495617nat
}

/// `y` is a multiplicative inverse of `a`.
pub open spec fn is_inverse(y: nat, a: nat) -> bool {
    (y * a) % modulus() == 1
}

/// `a` has a multiplicative inverse in the field.
pub open spec fn invertible(a: nat) -> bool {
    exists|y: nat| is_inverse(y, a)
}

/// A field element. Its view is the integer in `0..modulus()` that it stands for.
#[derive(Clone, Copy, Debug, PartialEq, Eq, Structural)]
pub struct FS {
    n: U256,
}

impl View for FS {
    type V = nat;

    closed spec fn view(&self) -> nat {
        self.n@
    }
}

impl FS {
    #[verifier::type_invariant]
    spec fn reduced(self) -> bool {
        self.n@ < modulus()
    }

    /// Two elements that stand for the same integer are the same element.
    pub proof fn lemma_view_injective(self, other: FS)
        requires
            self@ == other@,
        ensures
            self == other,
    {
        self.n.lemma_view_injective(other.n);
    }

    /// The element that stands for the integer `n`.
    pub closed spec fn of(n: nat) -> FS {
        FS { n: U256 { hi: (n / wide::pow128()) as u128, lo: (n % wide::pow128()) as u128 } }
    }

    /// `of` and the view are inverse to each other.
    pub proof fn lemma_of(n: nat)
        requires
            n < modulus(),
        ensures
            FS::of(n)@ == n,
    {
    }

    /// `of` and the view are inverse to each other.
    pub proof fn lemma_of_view(self)
        ensures
            FS::of(self@) == self,
    {
        self.lemma_view_injective(FS::of(self@));
    }

    fn modulus_value() -> (p: U256)
        ensures
            p@ == modulus(),
    {
        U256 { hi: MODULUS_HI, lo: MODULUS_LO }
    }

    /// The integer as a 256-bit value.
    pub(crate) fn raw(&self) -> (n: U256)
        ensures
            n@ == self@,
            n@ < modulus(),
    {
        proof {
            use_type_invariant(self);
        }
        self.n
    }

    /// The upper and the lower 128 bits of the integer.
    pub fn to_halves(&self) -> (r: (u128, u128))
        ensures
            self@ == r.0 as nat * wide::pow128() + r.1 as nat,
            self@ < modulus(),
    {
        proof {
            use_type_invariant(self);
        }
        (self.n.hi, self.n.lo)
    }

    /// The element of an integer given by its upper and lower 128 bits,
    /// where the integer lies below the modulus.
    pub fn from_halves(hi: u128, lo: u128) -> (r: Option<FS>)
        ensures
            r is Some <==> (hi as nat * wide::pow128() + lo as nat) < modulus(),
            r matches Some(f) ==> f@ == hi as nat * wide::pow128() + lo as nat,
    {
        let n = U256 { hi, lo };
        if n.less_than(&Self::modulus_value()) {
            Some(FS { n })
        } else {
            None
        }
    }

    /// Every element lies below the modulus.
    pub fn bounded(&self)
        ensures
            self@ < modulus(),
    {
        proof {
            use_type_invariant(self);
        }
    }

    pub fn zero() -> (r: FS)
        ensures
            r@ == 0,
    {
        FS { n: U256::from_u64(0) }
    }

    pub fn one() -> (r: FS)
        ensures
            r@ == 1,
    {
        FS { n: U256::from_u64(1) }
    }

    pub fn from_u64(n: u64) -> (r: FS)
        ensures
            r@ == n,
    {
        FS { n: U256::from_u64(n) }
    }

    pub fn is_zero(&self) -> (r: bool)
        ensures
            r == (self@ == 0),
    {
        self.n.is_zero()
    }

    pub fn is_one(&self) -> (r: bool)
        ensures
            r == (self@ == 1),
    {
        self.n.hi == 0 && self.n.lo == 1
    }

    /// Whether two elements stand for the same integer.
    pub fn equals(&self, other: &FS) -> (r: bool)
        ensures
            r == (self@ == other@),
    {
        self.n.hi == other.n.hi && self.n.lo == other.n.lo
    }

    /// The integer itself, where it fits in 64 bits.
    pub fn to_u64(&self) -> (r: Option<u64>)
        ensures
            r == (if self@ <= u64::MAX {
                Some(self@ as u64)
            } else {
                None
            }),
    {
        if self.n.hi == 0 && self.n.lo <= u64::MAX as u128 {
            Some(self.n.lo as u64)
        } else {
            None
        }
    }

    pub fn add(&self, other: &FS) -> (r: FS)
        ensures
            r@ == (self@ + other@) % modulus(),
    {
        proof {
            use_type_invariant(self);
            use_type_invariant(other);
        }
        let s = self.n.sum(&other.n);
        let p = Self::modulus_value();
        if s.less_than(&p) {
            FS { n: s }
        } else {
            FS { n: s.difference(&p) }
        }
    }

    pub fn neg(&self) -> (r: FS)
        ensures
            r@ == (-(self@ as int)) % (modulus() as int),
    {
        proof {
            use_type_invariant(self);
        }
        if self.n.is_zero() {
            FS { n: self.n }
        } else {
            let p = Self::modulus_value();
            FS { n: p.difference(&self.n) }
        }
    }

    pub fn sub(&self, other: &FS) -> (r: FS)
        ensures
            r@ == (self@ - other@) % (modulus() as int),
    {
        proof {
            use_type_invariant(self);
            use_type_invariant(other);
        }
        if other.n.less_than(&self.n) || other.equals(self) {
            FS { n: self.n.difference(&other.n) }
        } else {
            let p = Self::modulus_value();
            let gap = other.n.difference(&self.n);
            FS { n: p.difference(&gap) }
        }
    }

    /// The product, computed by doubling: one round for each bit of `other`.
    pub fn mul(&self, other: &FS) -> (r: FS)
        ensures
            r@ == (self@ * other@) % modulus(),
    {
        let mut acc = FS::zero();
        let mut addend = *self;
        let mut k = other.n;
        while !k.is_zero()
            invariant
                (acc@ as int + addend@ as int * k@ as int) % (modulus() as int) == (self@ as int
                    * other@ as int) % (modulus() as int),
            decreases k@,
        {
            proof {
                modular::lemma_double_and_add(
                    acc@ as int,
                    addend@ as int,
                    k@ as int,
                    modulus() as int,
                );
            }
            if !k.is_even() {
                acc = acc.add(&addend);
            }
            addend = addend.add(&addend);
            k = k.half();
        }
        proof {
            use_type_invariant(&acc);
            assert(addend@ as int * k@ as int == 0) by (nonlinear_arith)
                requires
                    k@ == 0,
            ;
        }
        acc
    }

    /// The element whose double is `self`.
    fn halved(&self) -> (r: FS)
        ensures
            (2 * r@) % modulus() == self@,
    {
        proof {
            use_type_invariant(self);
        }
        if self.n.is_even() {
            let h = self.n.half();
            proof {
                lemma_small_mod(self@, modulus());
            }
            FS { n: h }
        } else {
            let p = Self::modulus_value();
            let h = self.n.sum(&p).half();
            proof {
                assert(2 * h@ == self@ + modulus());
                lemma_mod_add_multiples_vanish(self@ as int, modulus() as int);
                lemma_small_mod(self@, modulus());
            }
            FS { n: h }
        }
    }

    /// The multiplicative inverse, by the binary form of Euclid's algorithm.
    /// It fails exactly on the elements that have no inverse, zero among them.
    pub fn inverse(&self) -> (r: Result<FS, Error>)
        ensures
            match r {
                Ok(x) => is_inverse(x@, self@),
                Err(e) => e is DivisionByZero && !invertible(self@),
            },
            self@ == 0 ==> r is Err,
    {
        proof {
            use_type_invariant(self);
        }
        let ghost a = self@ as int;
        let ghost p = modulus() as int;
        if self.is_zero() {
            proof {
                assert forall|y: nat| !is_inverse(y, self@) by {
                    assert(y * 0 == 0) by (nonlinear_arith);
                }
            }
            return Err(Error::DivisionByZero);
        }
        let mut u = self.n;
        let mut v = Self::modulus_value();
        let mut x1 = FS::one();
        let mut x2 = FS::zero();
        // `a` and the modulus as combinations of `u` and `v`
        let ghost mut au: int = 1;
        let ghost mut av: int = 0;
        let ghost mut pu: int = 0;
        let ghost mut pv: int = 1;
        proof {
            assert(1 * a == a && 0 * a == 0) by (nonlinear_arith);
            assert(a == 1 * a + 0 * p && p == 0 * a + 1 * p) by (nonlinear_arith);
        }
        loop
            invariant
                a == self@,
                p == modulus(),
                0 < u@,
                0 < v@,
                (x1@ as int * a) % p == (u@ as int) % p,
                (x2@ as int * a) % p == (v@ as int) % p,
                a == au * u@ + av * v@,
                p == pu * u@ + pv * v@,
            decreases u@ + v@,
        {
            if u.hi == 0 && u.lo == 1 {
                return Ok(x1);
            }
            if v.hi == 0 && v.lo == 1 {
                return Ok(x2);
            }
            if u.is_even() {
                let h = x1.halved();
                proof {
                    use_type_invariant(&x1);
                    lemma_mul_mod_noop_left(2 * h@ as int, a, p);
                    lemma_mul_mod_noop_left(x1@ as int, a, p);
                    modular::lemma_halve_congruence(h@ as int, a, u@ as int, p);
                    assert(au * u@ == (2 * au) * (u@ / 2)) by (nonlinear_arith)
                        requires
                            u@ % 2 == 0,
                    ;
                    assert(pu * u@ == (2 * pu) * (u@ / 2)) by (nonlinear_arith)
                        requires
                            u@ % 2 == 0,
                    ;
                    au = 2 * au;
                    pu = 2 * pu;
                }
                x1 = h;
                u = u.half();
            } else if v.is_even() {
                let h = x2.halved();
                proof {
                    use_type_invariant(&x2);
                    lemma_mul_mod_noop_left(2 * h@ as int, a, p);
                    lemma_mul_mod_noop_left(x2@ as int, a, p);
                    modular::lemma_halve_congruence(h@ as int, a, v@ as int, p);
                    assert(av * v@ == (2 * av) * (v@ / 2)) by (nonlinear_arith)
                        requires
                            v@ % 2 == 0,
                    ;
                    assert(pv * v@ == (2 * pv) * (v@ / 2)) by (nonlinear_arith)
                        requires
                            v@ % 2 == 0,
                    ;
                    av = 2 * av;
                    pv = 2 * pv;
                }
                x2 = h;
                v = v.half();
            } else if v.less_than(&u) {
                proof {
                    modular::lemma_subtract_congruence(
                        x1@ as int,
                        x2@ as int,
                        a,
                        u@ as int,
                        v@ as int,
                        p,
                    );
                    assert(au * u@ + av * v@ == au * (u@ - v@) + (au + av) * v@)
                        by (nonlinear_arith);
                    assert(pu * u@ + pv * v@ == pu * (u@ - v@) + (pu + pv) * v@)
                        by (nonlinear_arith);
                    av = au + av;
                    pv = pu + pv;
                }
                x1 = x1.sub(&x2);
                u = u.difference(&v);
            } else if u.less_than(&v) {
                proof {
                    modular::lemma_subtract_congruence(
                        x2@ as int,
                        x1@ as int,
                        a,
                        v@ as int,
                        u@ as int,
                        p,
                    );
                    assert(au * u@ + av * v@ == (au + av) * u@ + av * (v@ - u@))
                        by (nonlinear_arith);
                    assert(pu * u@ + pv * v@ == (pu + pv) * u@ + pv * (v@ - u@))
                        by (nonlinear_arith);
                    au = au + av;
                    pu = pu + pv;
                }
                x2 = x2.sub(&x1);
                v = v.difference(&u);
            } else {
                proof {
                    let g = u@ as int;
                    assert(a == (au + av) * g) by (nonlinear_arith)
                        requires
                            a == au * g + av * g,
                    ;
                    assert(p == (pu + pv) * g) by (nonlinear_arith)
                        requires
                            p == pu * g + pv * g,
                    ;
                    assert forall|y: nat| !is_inverse(y, self@) by {
                        modular::lemma_common_factor_no_inverse(
                            a,
                            p,
                            g,
                            au + av,
                            pu + pv,
                            y as int,
                        );
                    }
                }
                return Err(Error::DivisionByZero);
            }
        }
    }
}

impl From<u64> for FS {
    fn from(n: u64) -> (r: FS) {
        let r = FS::from_u64(n);
        proof {
            r.lemma_of_view();
        }
        r
    }
}

impl vstd::std_specs::convert::FromSpecImpl<u64> for FS {
    open spec fn obeys_from_spec() -> bool {
        true
    }

    open spec fn from_spec(n: u64) -> FS {
        FS::of(n as nat)
    }
}

} // verus!
