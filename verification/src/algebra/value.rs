//! Values of expressions: what the evaluator computes with. A value has
//! degree one at most; a product of two non-constant values is refused.
use crate::algebra::error::Error;
use crate::algebra::field;
use crate::algebra::field::FS;
use crate::algebra::lc;
use crate::algebra::lc::SignalId;
use crate::algebra::lc::LC;
use vstd::prelude::*;
use vstd::string::*;

verus! {

#[derive(Debug)]
pub enum Value {
    /// A number of the field.
    FieldScalar(FS),
    /// An expression of degree one at most over the signals.
    LinearCombination(LC),
    /// No value yet.
    Unknown,
}

/// What a value holds.
pub enum ValueView {
    FieldScalar(FS),
    LinearCombination(Seq<(SignalId, FS)>),
    Unknown,
}

impl ValueView {
    /// The coefficient of a signal in the value; a scalar stands on `one`.
    pub open spec fn coefficient(self, id: SignalId) -> nat {
        match self {
            ValueView::FieldScalar(f) => if id == lc::ONE {
                f@
            } else {
                0
            },
            ValueView::LinearCombination(terms) => lc::coefficient(terms, id),
            ValueView::Unknown => 0,
        }
    }

    /// A known value without a term on any signal but `one`.
    pub open spec fn constant(self) -> bool {
        match self {
            ValueView::FieldScalar(_) => true,
            ValueView::LinearCombination(terms) => lc::constant(terms),
            ValueView::Unknown => false,
        }
    }

    /// The terms of a known value; a scalar is a term on `one`.
    pub open spec fn terms(self) -> Seq<(SignalId, FS)> {
        match self {
            ValueView::FieldScalar(f) => seq![(lc::ONE, f)],
            ValueView::LinearCombination(terms) => terms,
            ValueView::Unknown => Seq::empty(),
        }
    }

    /// The sum of two values.
    pub open spec fn sum(self, other: ValueView) -> ValueView {
        match (self, other) {
            (ValueView::FieldScalar(x), ValueView::FieldScalar(y)) => ValueView::FieldScalar(
                FS::of((x@ + y@) % field::modulus()),
            ),
            (ValueView::Unknown, _) => ValueView::Unknown,
            (_, ValueView::Unknown) => ValueView::Unknown,
            _ => ValueView::LinearCombination(lc::sum(self.terms(), other.terms())),
        }
    }

    /// The negated value.
    pub open spec fn negation(self) -> ValueView {
        match self {
            ValueView::FieldScalar(x) => ValueView::FieldScalar(
                FS::of(((-(x@ as int)) % (field::modulus() as int)) as nat),
            ),
            ValueView::LinearCombination(terms) => ValueView::LinearCombination(lc::negation(terms)),
            ValueView::Unknown => ValueView::Unknown,
        }
    }

    /// The difference of two values.
    pub open spec fn difference(self, other: ValueView) -> ValueView {
        self.sum(other.negation())
    }

    /// The product of two values, where it has degree one at most.
    pub open spec fn product(self, other: ValueView) -> Option<ValueView> {
        match (self, other) {
            (ValueView::FieldScalar(x), ValueView::FieldScalar(y)) => Some(
                ValueView::FieldScalar(FS::of((x@ * y@) % field::modulus())),
            ),
            (ValueView::Unknown, _) => None,
            (_, ValueView::Unknown) => None,
            _ => if self.constant() {
                Some(
                    ValueView::LinearCombination(
                        lc::product(other.terms(), self.coefficient(lc::ONE)),
                    ),
                )
            } else if other.constant() {
                Some(
                    ValueView::LinearCombination(
                        lc::product(self.terms(), other.coefficient(lc::ONE)),
                    ),
                )
            } else {
                None
            },
        }
    }

    /// A linear combination is held in canonical form.
    pub open spec fn canonical(self) -> bool {
        self matches ValueView::LinearCombination(terms) ==> lc::canonical(terms)
    }
}

impl View for Value {
    type V = ValueView;

    open spec fn view(&self) -> ValueView {
        match self {
            Value::FieldScalar(f) => ValueView::FieldScalar(*f),
            Value::LinearCombination(l) => ValueView::LinearCombination(l@),
            Value::Unknown => ValueView::Unknown,
        }
    }
}

/// What a list of values holds.
pub open spec fn views(values: Seq<Value>) -> Seq<ValueView> {
    Seq::new(values.len(), |i: int| values[i]@)
}

impl Clone for Value {
    fn clone(&self) -> (r: Value)
        ensures
            r@ == self@,
    {
        match self {
            Value::FieldScalar(f) => Value::FieldScalar(*f),
            Value::LinearCombination(l) => Value::LinearCombination(l.clone()),
            Value::Unknown => Value::Unknown,
        }
    }
}

impl Value {
    pub fn from_fs(f: FS) -> (r: Value)
        ensures
            r@ == ValueView::FieldScalar(f),
    {
        Value::FieldScalar(f)
    }

    pub fn from_u64(n: u64) -> (r: Value)
        ensures
            r@ == ValueView::FieldScalar(FS::of(n as nat)),
    {
        let f = FS::from_u64(n);
        proof {
            f.lemma_of_view();
        }
        Value::FieldScalar(f)
    }

    /// The value of a signal taken as a symbol.
    pub fn from_signal(id: SignalId) -> (r: Value)
        ensures
            r@ == ValueView::LinearCombination(seq![(id, FS::of(1))]),
            r@.canonical(),
    {
        Value::LinearCombination(LC::from_signal(id))
    }

    /// The number that a constant value is: a scalar itself, or the
    /// coefficient on `one` of a combination that names no other signal.
    pub fn try_into_fs(&self) -> (r: Option<FS>)
        ensures
            r is Some <==> self@.constant(),
            r matches Some(f) ==> f@ == self@.coefficient(lc::ONE),
    {
        match self {
            Value::FieldScalar(f) => Some(*f),
            Value::LinearCombination(l) => {
                if l.is_constant() {
                    Some(l.coefficient_of(lc::ONE))
                } else {
                    None
                }
            },
            Value::Unknown => None,
        }
    }

    /// The value as a linear combination; nothing for an unknown value.
    pub fn to_lc(&self) -> (r: Option<LC>)
        ensures
            r is Some <==> !(self@ is Unknown),
            r matches Some(l) ==> lc::canonical(l@) && lc::same_combination(l@, self@.terms()),
    {
        match self {
            Value::FieldScalar(f) => {
                let l = LC::from_constant(f);
                f.bounded();
                proof {
                    assert forall|id: SignalId|
                        lc::coefficient(l@, id) == lc::coefficient(self@.terms(), id) by {
                        lc::lemma_coefficient_single((lc::ONE, *f), id);
                        if id != lc::ONE {
                            assert(lc::coefficient(l@, id) == 0);
                        }
                    }
                }
                Some(l)
            },
            Value::LinearCombination(l) => Some(l.canonize()),
            Value::Unknown => None,
        }
    }

    /// The sum. Two scalars give a scalar, an unknown operand gives an
    /// unknown, anything else a combination in canonical form.
    pub fn add(&self, other: &Value) -> (r: Value)
        ensures
            r@ is Unknown <==> self@ is Unknown || other@ is Unknown,
            r@ is FieldScalar <==> self@ is FieldScalar && other@ is FieldScalar,
            r@.canonical(),
            r@ == self@.sum(other@),
    {
        match (self, other) {
            (Value::FieldScalar(x), Value::FieldScalar(y)) => {
                let r = x.add(y);
                proof {
                    r.lemma_of_view();
                }
                Value::FieldScalar(r)
            },
            _ => {
                match (self.to_lc(), other.to_lc()) {
                    (Some(x), Some(y)) => {
                        let r = x.add(&y);
                        proof {
                            lc::lemma_sum(self@.terms(), other@.terms(), r@);
                        }
                        Value::LinearCombination(r)
                    },
                    _ => Value::Unknown,
                }
            },
        }
    }

    /// The negation.
    pub fn neg(&self) -> (r: Value)
        ensures
            r@ is Unknown <==> self@ is Unknown,
            r@ is FieldScalar <==> self@ is FieldScalar,
            r@.canonical(),
            r@ == self@.negation(),
    {
        match self {
            Value::FieldScalar(x) => {
                let r = x.neg();
                proof {
                    r.lemma_of_view();
                }
                Value::FieldScalar(r)
            },
            Value::LinearCombination(l) => Value::LinearCombination(l.neg()),
            Value::Unknown => Value::Unknown,
        }
    }

    /// The difference.
    pub fn sub(&self, other: &Value) -> (r: Value)
        ensures
            r@ is Unknown <==> self@ is Unknown || other@ is Unknown,
            r@ is FieldScalar <==> self@ is FieldScalar && other@ is FieldScalar,
            r@.canonical(),
            r@ == self@.difference(other@),
    {
        let n = other.neg();
        self.add(&n)
    }

    /// The product. It exists where one operand at least is a constant: the
    /// other is then scaled by it. Two operands that both name a signal
    /// besides `one` would give degree two, and an unknown operand has no
    /// product: both are refused.
    pub fn mul(&self, other: &Value) -> (r: Result<Value, Error>)
        ensures
            match r {
                Ok(v) => self@.product(other@) == Some(v@) && v@.canonical() && !(v@ is Unknown),
                Err(e) => e is InvalidOperation && self@.product(other@) is None,
            },
    {
        match (self, other) {
            (Value::FieldScalar(x), Value::FieldScalar(y)) => {
                let p = x.mul(y);
                proof {
                    p.lemma_of_view();
                }
                Ok(Value::FieldScalar(p))
            },
            _ => {
                let (a, b) = match (self.to_lc(), other.to_lc()) {
                    (Some(a), Some(b)) => (a, b),
                    _ => {
                        return Err(
                            Error::InvalidOperation(String::from_str("product of an unknown value")),
                        );
                    },
                };
                if let Some(k) = self.try_into_fs() {
                    let p = b.scale(&k);
                    proof {
                        lc::lemma_product(other@.terms(), k@, p@);
                    }
                    Ok(Value::LinearCombination(p))
                } else if let Some(k) = other.try_into_fs() {
                    let p = a.scale(&k);
                    proof {
                        lc::lemma_product(self@.terms(), k@, p@);
                    }
                    Ok(Value::LinearCombination(p))
                } else {
                    Err(
                        Error::InvalidOperation(
                            String::from_str("product of two non-constant expressions"),
                        ),
                    )
                }
            },
        }
    }
}

impl From<FS> for Value {
    fn from(f: FS) -> (r: Value) {
        Value::FieldScalar(f)
    }
}

impl vstd::std_specs::convert::FromSpecImpl<FS> for Value {
    open spec fn obeys_from_spec() -> bool {
        true
    }

    open spec fn from_spec(f: FS) -> Value {
        Value::FieldScalar(f)
    }
}

impl From<u64> for Value {
    fn from(n: u64) -> (r: Value) {
        let f = FS::from_u64(n);
        proof {
            f.lemma_of_view();
        }
        Value::FieldScalar(f)
    }
}

impl vstd::std_specs::convert::FromSpecImpl<u64> for Value {
    open spec fn obeys_from_spec() -> bool {
        true
    }

    open spec fn from_spec(n: u64) -> Value {
        Value::FieldScalar(FS::of(n as nat))
    }
}

} // verus!
