//! Combinations, equations and values as text.
use crate::algebra::field::FS;
use crate::algebra::lc::SignalId;
use crate::algebra::lc::LC;
use crate::algebra::literal;
use crate::algebra::qeq::QeqView;
use crate::algebra::qeq::QEQ;
use crate::algebra::value::Value;
use crate::algebra::value::ValueView;
use vstd::prelude::*;
use vstd::string::*;

verus! {

/// A term: the coefficient, the letter `s`, the signal's identifier.
pub open spec fn term_text(t: (SignalId, FS)) -> Seq<char> {
    literal::decimal_text(t.1@) + seq!['s'] + literal::decimal_text(t.0 as nat)
}

/// The terms, with a plus sign between each two.
pub open spec fn terms_text(terms: Seq<(SignalId, FS)>) -> Seq<char>
    decreases terms.len(),
{
    if terms.len() == 0 {
        Seq::empty()
    } else if terms.len() == 1 {
        term_text(terms[0])
    } else {
        terms_text(terms.drop_last()) + seq!['+'] + term_text(terms.last())
    }
}

/// A combination: its terms in square brackets; a blank between the
/// brackets where there is no term.
pub open spec fn lc_text(terms: Seq<(SignalId, FS)>) -> Seq<char> {
    if terms.len() == 0 {
        seq!['[', ' ', ']']
    } else {
        seq!['['] + terms_text(terms) + seq![']']
    }
}

/// An equation: `[a]*[b]+[c]`.
pub open spec fn qeq_text(q: QeqView) -> Seq<char> {
    lc_text(q.a) + seq!['*'] + lc_text(q.b) + seq!['+'] + lc_text(q.c)
}

/// A value: a scalar in decimal, a combination in brackets, a question
/// mark for an unknown value.
pub open spec fn value_text(v: ValueView) -> Seq<char> {
    match v {
        ValueView::FieldScalar(f) => literal::decimal_text(f@),
        ValueView::LinearCombination(terms) => lc_text(terms),
        ValueView::Unknown => seq!['?'],
    }
}

/// The decimal text of an index.
pub fn index_text(n: usize) -> (r: String)
    ensures
        r@ == literal::decimal_text(n as nat),
{
    FS::from_u64(n as u64).to_string()
}

impl LC {
    pub fn to_string(&self) -> (r: String)
        ensures
            r@ == lc_text(self@),
    {
        if self.0.len() == 0 {
            proof {
                reveal_strlit("[ ]");
                assert("[ ]"@ =~= seq!['[', ' ', ']']);
            }
            return String::from_str("[ ]");
        }
        let mut out = String::from_str("[");
        let mut i: usize = 0;
        proof {
            reveal_strlit("[");
            reveal_strlit("]");
            reveal_strlit("+");
            reveal_strlit("s");
            assert("["@ =~= seq!['[']);
            assert("]"@ =~= seq![']']);
            assert("+"@ =~= seq!['+']);
            assert("s"@ =~= seq!['s']);
            assert(out@ =~= seq!['['] + terms_text(self@.take(0)));
        }
        while i < self.0.len()
            invariant
                i <= self@.len(),
                self@.len() > 0,
                "+"@ == seq!['+'],
                "s"@ == seq!['s'],
                out@ == seq!['['] + terms_text(self@.take(i as int)),
            decreases self@.len() - i,
        {
            if i > 0 {
                out.append("+");
            }
            out.append(self.0[i].1.to_string().as_str());
            out.append("s");
            out.append(index_text(self.0[i].0).as_str());
            proof {
                let upto = self@.take(i + 1);
                assert(upto.drop_last() =~= self@.take(i as int));
                assert(upto.last() == self@[i as int]);
                if i == 0 {
                    assert(terms_text(self@.take(0)) =~= Seq::empty());
                }
                assert(out@ =~= seq!['['] + terms_text(upto));
            }
            i = i + 1;
        }
        out.append("]");
        proof {
            assert(self@.take(i as int) =~= self@);
        }
        out
    }
}

impl QEQ {
    pub fn to_string(&self) -> (r: String)
        ensures
            r@ == qeq_text(self@),
    {
        let mut out = self.a.to_string();
        out.append("*");
        out.append(self.b.to_string().as_str());
        out.append("+");
        out.append(self.c.to_string().as_str());
        proof {
            reveal_strlit("*");
            reveal_strlit("+");
            assert("*"@ =~= seq!['*']);
            assert("+"@ =~= seq!['+']);
            assert(out@ =~= qeq_text(self@));
        }
        out
    }
}

impl Value {
    pub fn to_string(&self) -> (r: String)
        ensures
            r@ == value_text(self@),
    {
        match self {
            Value::FieldScalar(f) => f.to_string(),
            Value::LinearCombination(l) => l.to_string(),
            Value::Unknown => {
                proof {
                    reveal_strlit("?");
                    assert("?"@ =~= seq!['?']);
                }
                String::from_str("?")
            },
        }
    }
}

} // verus!
