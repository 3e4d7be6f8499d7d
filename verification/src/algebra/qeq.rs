//! Quadratic equations: the constraints of a rank-1 constraint system.
use crate::algebra::field::FS;
use crate::algebra::lc;
use crate::algebra::lc::SignalId;
use crate::algebra::lc::LC;
use vstd::prelude::*;

verus! {

/// The constraint `a * b + c = 0`, with `a`, `b` and `c` linear combinations.
#[derive(Debug)]
pub struct QEQ {
    pub a: LC,
    pub b: LC,
    pub c: LC,
}

/// What a quadratic equation holds: the terms of its three combinations.
pub struct QeqView {
    pub a: Seq<(SignalId, FS)>,
    pub b: Seq<(SignalId, FS)>,
    pub c: Seq<(SignalId, FS)>,
}

impl QeqView {
    /// All three combinations are in canonical form.
    pub open spec fn canonical(self) -> bool {
        lc::canonical(self.a) && lc::canonical(self.b) && lc::canonical(self.c)
    }

    /// The same equation, however its terms are written.
    pub open spec fn same(self, other: QeqView) -> bool {
        &&& lc::same_combination(self.a, other.a)
        &&& lc::same_combination(self.b, other.b)
        &&& lc::same_combination(self.c, other.c)
    }
}

impl View for QEQ {
    type V = QeqView;

    open spec fn view(&self) -> QeqView {
        QeqView { a: self.a@, b: self.b@, c: self.c@ }
    }
}

impl Clone for QEQ {
    fn clone(&self) -> (r: QEQ)
        ensures
            r@ == self@,
    {
        QEQ { a: self.a.clone(), b: self.b.clone(), c: self.c.clone() }
    }
}

/// An equation has one canonical form only.
pub proof fn lemma_canonical_unique(p: QeqView, q: QeqView)
    requires
        p.canonical(),
        q.canonical(),
        p.same(q),
    ensures
        p == q,
{
    lc::lemma_canonical_unique(p.a, q.a);
    lc::lemma_canonical_unique(p.b, q.b);
    lc::lemma_canonical_unique(p.c, q.c);
}

impl QEQ {
    pub fn new(a: LC, b: LC, c: LC) -> (r: QEQ)
        ensures
            r@ == (QeqView { a: a@, b: b@, c: c@ }),
    {
        QEQ { a, b, c }
    }

    /// A constant as an equation: no product, and the constant as `c`.
    pub fn from_constant(value: &FS) -> (r: QEQ)
        ensures
            r@.canonical(),
            r@.a.len() == 0,
            r@.b.len() == 0,
            value@ == 0 ==> r@.c.len() == 0,
            value@ != 0 ==> r@.c == seq![(lc::ONE, *value)],
    {
        QEQ { a: LC::new(), b: LC::new(), c: LC::from_constant(value) }
    }

    /// A linear constraint `l = 0`, written as `one * l + 0 = 0`.
    pub fn from_linear(l: &LC) -> (r: QEQ)
        ensures
            r@ == (QeqView {
                a: seq![(lc::ONE, FS::of(1))],
                b: lc::canon(l@),
                c: Seq::empty(),
            }),
            r@.canonical(),
    {
        QEQ { a: LC::from_signal(lc::ONE), b: l.canonize(), c: LC::new() }
    }

    /// The canonical form: each of the three combinations in canonical form.
    pub fn canonize(&self) -> (r: QEQ)
        ensures
            r@.canonical(),
            r@.same(self@),
            r@ == (QeqView { a: lc::canon(self@.a), b: lc::canon(self@.b), c: lc::canon(self@.c) }),
    {
        QEQ { a: self.a.canonize(), b: self.b.canonize(), c: self.c.canonize() }
    }

    /// Whether two equations are the same, however their terms are written.
    pub fn equals(&self, other: &QEQ) -> (r: bool)
        ensures
            r == self@.same(other@),
    {
        self.a.equals(&other.a) && self.b.equals(&other.b) && self.c.equals(&other.c)
    }
}

} // verus!
