//! Field elements as text: decimal and hexadecimal literals in, decimal out.
use crate::algebra::error::Error;
use crate::algebra::field;
use crate::algebra::field::FS;
use vstd::arithmetic::div_mod::*;
use vstd::prelude::*;
use vstd::string::*;

verus! {

/// The value of a digit, decimal or hexadecimal; 16 for any other character.
pub open spec fn digit_value(c: char) -> nat {
    if '0' <= c && c <= '9' {
        (c as u32 - '0' as u32) as nat
    } else if 'a' <= c && c <= 'f' {
        (c as u32 - 'a' as u32 + 10) as nat
    } else if 'A' <= c && c <= 'F' {
        (c as u32 - 'A' as u32 + 10) as nat
    } else {
        16
    }
}

/// Every character is a digit of the given radix.
pub open spec fn all_digits(s: Seq<char>, radix: nat) -> bool {
    forall|i: int| 0 <= i < s.len() ==> digit_value(#[trigger] s[i]) < radix
}

/// The number that a digit sequence writes, most significant digit first.
pub open spec fn digits_value(s: Seq<char>, radix: nat) -> nat
    decreases s.len(),
{
    if s.len() == 0 {
        0
    } else {
        digits_value(s.drop_last(), radix) * radix + digit_value(s.last())
    }
}

/// One or more decimal digits.
pub open spec fn is_decimal_literal(s: Seq<char>) -> bool {
    s.len() > 0 && all_digits(s, 10)
}

/// `0x` or `0X`, then one or more hexadecimal digits.
pub open spec fn is_hex_literal(s: Seq<char>) -> bool {
    &&& s.len() > 2
    &&& s[0] == '0'
    &&& (s[1] == 'x' || s[1] == 'X')
    &&& all_digits(s.skip(2), 16)
}

pub open spec fn is_literal(s: Seq<char>) -> bool {
    is_decimal_literal(s) || is_hex_literal(s)
}

/// The number that a literal writes.
pub open spec fn literal_value(s: Seq<char>) -> nat {
    if is_hex_literal(s) {
        digits_value(s.skip(2), 16)
    } else {
        digits_value(s, 10)
    }
}

/// The character of a decimal digit.
pub open spec fn digit_char(d: nat) -> char {
    if d == 0 {
        '0'
    } else if d == 1 {
        '1'
    } else if d == 2 {
        '2'
    } else if d == 3 {
        '3'
    } else if d == 4 {
        '4'
    } else if d == 5 {
        '5'
    } else if d == 6 {
        '6'
    } else if d == 7 {
        '7'
    } else if d == 8 {
        '8'
    } else {
        '9'
    }
}

/// A number in decimal, without leading zeros.
pub open spec fn decimal_text(n: nat) -> Seq<char>
    decreases n,
{
    if n < 10 {
        seq![digit_char(n)]
    } else {
        decimal_text(n / 10).push(digit_char(n % 10))
    }
}

/// The digits above the last one: nothing for a number below ten.
pub open spec fn leading_text(n: nat) -> Seq<char> {
    if n == 0 {
        Seq::empty()
    } else {
        decimal_text(n)
    }
}

/// Digits collected from the least significant one, read back in writing order.
pub open spec fn reversed_text(digits: Seq<u8>) -> Seq<char> {
    Seq::new(digits.len(), |i: int| digit_char(digits[digits.len() - 1 - i] as nat))
}

proof fn lemma_decimal_text_step(n: nat)
    ensures
        decimal_text(n) == leading_text(n / 10).push(digit_char(n % 10)),
{
    if n < 10 {
        assert(decimal_text(n) =~= Seq::<char>::empty().push(digit_char(n)));
    }
}

/// The text of one decimal digit.
pub fn digit_str(d: u8) -> (s: &'static str)
    requires
        d < 10,
    ensures
        s@ == seq![digit_char(d as nat)],
{
    let s = if d == 0 {
        "0"
    } else if d == 1 {
        "1"
    } else if d == 2 {
        "2"
    } else if d == 3 {
        "3"
    } else if d == 4 {
        "4"
    } else if d == 5 {
        "5"
    } else if d == 6 {
        "6"
    } else if d == 7 {
        "7"
    } else if d == 8 {
        "8"
    } else {
        "9"
    };
    proof {
        reveal_strlit("0");
        reveal_strlit("1");
        reveal_strlit("2");
        reveal_strlit("3");
        reveal_strlit("4");
        reveal_strlit("5");
        reveal_strlit("6");
        reveal_strlit("7");
        reveal_strlit("8");
        reveal_strlit("9");
        assert(s@ =~= seq![digit_char(d as nat)]);
    }
    s
}

/// The value of an ASCII byte read as a digit; 16 where it is none.
pub fn digit_of_byte(b: u8) -> (r: u8)
    requires
        b < 128,
    ensures
        r as nat == digit_value(b as char),
        r <= 16,
{
    if 48 <= b && b <= 57 {
        b - 48
    } else if 97 <= b && b <= 102 {
        b - 97 + 10
    } else if 65 <= b && b <= 70 {
        b - 65 + 10
    } else {
        16
    }
}

impl FS {
    /// The element in decimal.
    pub fn to_string(&self) -> (r: String)
        ensures
            r@ == decimal_text(self@),
    {
        let mut digits: Vec<u8> = Vec::new();
        let first = self.raw().div_rem_ten();
        digits.push(first.1);
        let mut rest = first.0;
        proof {
            lemma_decimal_text_step(self@);
            assert(reversed_text(digits@) =~= seq![digit_char(first.1 as nat)]);
            assert(decimal_text(self@) =~= leading_text(rest@) + reversed_text(digits@));
        }
        while !rest.is_zero()
            invariant
                digits@.len() > 0,
                forall|i: int| 0 <= i < digits@.len() ==> digits@[i] < 10,
                decimal_text(self@) == leading_text(rest@) + reversed_text(digits@),
            decreases rest@,
        {
            let step = rest.div_rem_ten();
            proof {
                lemma_decimal_text_step(rest@);
                assert(reversed_text(digits@.push(step.1)) =~= seq![digit_char(step.1 as nat)]
                    + reversed_text(digits@));
                assert(leading_text(rest@) + reversed_text(digits@) =~= leading_text(step.0@)
                    + reversed_text(digits@.push(step.1)));
            }
            digits.push(step.1);
            rest = step.0;
        }
        let mut out = String::new();
        let mut i: usize = digits.len();
        while i > 0
            invariant
                i <= digits@.len(),
                forall|j: int| 0 <= j < digits@.len() ==> digits@[j] < 10,
                out@ == reversed_text(digits@).subrange(0, digits@.len() - i),
            decreases i,
        {
            i = i - 1;
            let d: u8 = digits[i];
            let ghost before = out@;
            out.append(digit_str(d));
            assert(out@ =~= reversed_text(digits@).subrange(0, digits@.len() - i));
        }
        assert(out@ =~= decimal_text(self@));
        out
    }

    /// Ten times the element, or sixteen times.
    fn times_radix(&self, hex: bool) -> (r: FS)
        ensures
            r@ == (self@ * (if hex {
                16nat
            } else {
                10nat
            })) % field::modulus(),
    {
        let x2 = self.add(self);
        let x4 = x2.add(&x2);
        let x8 = x4.add(&x4);
        let r = if hex {
            x8.add(&x8)
        } else {
            x8.add(&x2)
        };
        proof {
            let m = field::modulus() as int;
            let x = self@ as int;
            lemma_add_mod_noop(x + x, x + x, m);
            lemma_add_mod_noop(4 * x, 4 * x, m);
            lemma_add_mod_noop(8 * x, 8 * x, m);
            lemma_add_mod_noop(8 * x, 2 * x, m);
        }
        r
    }

    /// Reads a literal: decimal digits, or `0x` and hexadecimal digits. The
    /// number is taken modulo the field's order. Any other text is refused.
    pub fn parse(text: &str) -> (r: Result<FS, Error>)
        ensures
            match r {
                Ok(x) => is_literal(text@) && x@ == literal_value(text@) % field::modulus(),
                Err(e) => e is InvalidOperation && !is_literal(text@),
            },
    {
        if !text.is_ascii() {
            proof {
                let i = choose|i: int|
                    0 <= i < text@.len() && !('\0' <= #[trigger] text@[i] <= '\u{7f}');
                assert(digit_value(text@[i]) == 16);
                if is_hex_literal(text@) {
                    if i >= 2 {
                        assert(text@.skip(2)[i - 2] == text@[i]);
                    }
                }
            }
            return Err(Error::InvalidOperation(String::from_str("not a number")));
        }
        let len: usize = text.unicode_len();
        if len == 0 {
            return Err(Error::InvalidOperation(String::from_str("not a number")));
        }
        let hex: bool = len > 2 && text.get_ascii(0) == 48 && (text.get_ascii(1) == 120
            || text.get_ascii(1) == 88);
        let start: usize = if hex {
            2
        } else {
            0
        };
        let radix: u8 = if hex {
            16
        } else {
            10
        };
        let ghost body = text@.skip(start as int);
        proof {
            assert(digit_value('x') == 16 && digit_value('X') == 16);
            if !hex && is_hex_literal(text@) {
                assert(false);
            }
            if hex {
                assert(digit_value(text@[1]) == 16);
                assert(!is_decimal_literal(text@));
            }
        }
        let mut acc = FS::zero();
        let mut i: usize = start;
        while i < len
            invariant
                start <= i <= len,
                len == text@.len(),
                text.is_ascii(),
                body == text@.skip(start as int),
                start == (if hex {
                    2usize
                } else {
                    0usize
                }),
                hex ==> !is_decimal_literal(text@),
                hex ==> text@[0] == '0' && (text@[1] == 'x' || text@[1] == 'X'),
                !hex ==> !is_hex_literal(text@),
                radix == (if hex {
                    16u8
                } else {
                    10u8
                }),
                all_digits(body.take(i - start), radix as nat),
                acc@ == digits_value(body.take(i - start), radix as nat) % field::modulus(),
            decreases len - i,
        {
            let b: u8 = text.get_ascii(i);
            let d: u8 = digit_of_byte(b);
            proof {
                assert(b as char == text@[i as int]);
                assert(body[i - start] == text@[i as int]);
            }
            if d >= radix {
                proof {
                    if hex {
                        assert(!all_digits(body, 16));
                    } else {
                        assert(!all_digits(body, 10));
                        assert(body =~= text@);
                    }
                }
                return Err(Error::InvalidOperation(String::from_str("not a number")));
            }
            let shifted = acc.times_radix(hex);
            let next = shifted.add(&FS::from_u64(d as u64));
            proof {
                let m = field::modulus() as int;
                let before = body.take(i - start);
                let after = body.take(i - start + 1);
                assert(after.drop_last() =~= before);
                assert(after.last() == body[i - start]);
                let v = digits_value(before, radix as nat) as int;
                lemma_mul_mod_noop_left(v, radix as int, m);
                lemma_add_mod_noop_right(d as int, v * radix, m);
                assert forall|j: int| 0 <= j < after.len() implies digit_value(
                    #[trigger] after[j],
                ) < radix by {
                    if j < before.len() {
                        assert(after[j] == before[j]);
                    }
                }
            }
            acc = next;
            i = i + 1;
        }
        proof {
            assert(body.take(len - start) =~= body);
            if !hex {
                assert(body =~= text@);
            }
        }
        Ok(acc)
    }
}

} // verus!
