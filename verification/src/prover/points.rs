//! Points of the curve as the proving backend prints them, and their
//! coordinates as a verifier contract takes them. A coordinate is printed
//! as `0x` and 64 hexadecimal digits. A point of the first group is
//! printed as `G1(x=Fq(X), y=Fq(Y))`, a point of the second group as
//! `G2(x=Fq2(Fq(X0) + Fq(X1) * u), y=Fq2(Fq(Y0) + Fq(Y1) * u))`. A point
//! is looked for anywhere in a text, and the first one counts.
use crate::algebra::literal;
use vstd::prelude::*;
use vstd::string::*;

verus! {

/// The length of a coordinate's text.
pub const COORDINATE: usize = 66;

/// `0x` or `0X`, and 64 hexadecimal digits.
pub open spec fn is_coordinate(s: Seq<char>) -> bool {
    &&& s.len() == 66
    &&& s[0] == '0'
    &&& (s[1] == 'x' || s[1] == 'X')
    &&& literal::all_digits(s.skip(2), 16)
}

/// The text from a position on starts with a fixed part.
pub open spec fn has_at(s: Seq<char>, at: int, part: Seq<char>) -> bool {
    0 <= at && at + part.len() <= s.len() && s.subrange(at, at + part.len()) == part
}

/// The coordinate at a position of a text.
pub open spec fn coordinate_at(s: Seq<char>, at: int) -> Seq<char> {
    s.subrange(at, at + 66)
}

/// A point of the first group is printed at a position of a text.
pub open spec fn g1_at(s: Seq<char>, p: int) -> bool {
    &&& 0 <= p
    &&& p + 150 <= s.len()
    &&& has_at(s, p, "G1(x=Fq("@)
    &&& is_coordinate(coordinate_at(s, p + 8))
    &&& has_at(s, p + 74, "), y=Fq("@)
    &&& is_coordinate(coordinate_at(s, p + 82))
    &&& has_at(s, p + 148, "))"@)
}

/// A point of the second group is printed at a position of a text.
pub open spec fn g2_at(s: Seq<char>, p: int) -> bool {
    &&& 0 <= p
    &&& p + 314 <= s.len()
    &&& has_at(s, p, "G2(x=Fq2(Fq("@)
    &&& is_coordinate(coordinate_at(s, p + 12))
    &&& has_at(s, p + 78, ") + Fq("@)
    &&& is_coordinate(coordinate_at(s, p + 85))
    &&& has_at(s, p + 151, ") * u), y=Fq2(Fq("@)
    &&& is_coordinate(coordinate_at(s, p + 168))
    &&& has_at(s, p + 234, ") + Fq("@)
    &&& is_coordinate(coordinate_at(s, p + 241))
    &&& has_at(s, p + 307, ") * u))"@)
}

/// The first position from `from` on at which a point of the first group
/// is printed.
pub open spec fn first_g1(s: Seq<char>, from: int) -> Option<int>
    decreases s.len() - from,
{
    if from < 0 || from + 150 > s.len() {
        None
    } else if g1_at(s, from) {
        Some(from)
    } else {
        first_g1(s, from + 1)
    }
}

/// The first position from `from` on at which a point of the second group
/// is printed.
pub open spec fn first_g2(s: Seq<char>, from: int) -> Option<int>
    decreases s.len() - from,
{
    if from < 0 || from + 314 > s.len() {
        None
    } else if g2_at(s, from) {
        Some(from)
    } else {
        first_g2(s, from + 1)
    }
}

/// The coordinates `x` and `y` of the first point of the first group that
/// a text holds.
pub open spec fn g1_parts(s: Seq<char>) -> Option<(Seq<char>, Seq<char>)> {
    match first_g1(s, 0) {
        Some(p) => Some((coordinate_at(s, p + 8), coordinate_at(s, p + 82))),
        None => None,
    }
}

/// The coordinates of the first point of the second group that a text
/// holds: of `x` and then of `y`, each time the coefficient of `u` first
/// and the constant part second. The text prints them the other way round.
pub open spec fn g2_parts(s: Seq<char>) -> Option<(Seq<char>, Seq<char>, Seq<char>, Seq<char>)> {
    match first_g2(s, 0) {
        Some(p) => Some(
            (
                coordinate_at(s, p + 85),
                coordinate_at(s, p + 12),
                coordinate_at(s, p + 241),
                coordinate_at(s, p + 168),
            ),
        ),
        None => None,
    }
}

/// A point of the first group for a contract: `x, y`.
pub open spec fn g1_hex_text(s: Seq<char>) -> Option<Seq<char>> {
    match g1_parts(s) {
        Some((x, y)) => Some(x + ", "@ + y),
        None => None,
    }
}

/// A point of the second group for a contract: `[x1, x0], [y1, y0]`, the
/// coordinates in the order in which `g2_parts` gives them.
pub open spec fn g2_hex_text(s: Seq<char>) -> Option<Seq<char>> {
    match g2_parts(s) {
        Some((x1, x0, y1, y0)) => Some(
            "["@ + x1 + ", "@ + x0 + "], ["@ + y1 + ", "@ + y0 + "]"@,
        ),
        None => None,
    }
}

/// The first point is the first: a point is printed where it is found, and
/// at no position before.
pub proof fn lemma_first_g1(s: Seq<char>, from: int)
    requires
        0 <= from,
    ensures
        match first_g1(s, from) {
            Some(p) => from <= p && g1_at(s, p) && forall|q: int| from <= q < p ==> !g1_at(s, q),
            None => forall|q: int| from <= q ==> !g1_at(s, q),
        },
    decreases s.len() - from,
{
    if from + 150 <= s.len() && !g1_at(s, from) {
        lemma_first_g1(s, from + 1);
    }
}

/// The first point is the first: a point is printed where it is found, and
/// at no position before.
pub proof fn lemma_first_g2(s: Seq<char>, from: int)
    requires
        0 <= from,
    ensures
        match first_g2(s, from) {
            Some(p) => from <= p && g2_at(s, p) && forall|q: int| from <= q < p ==> !g2_at(s, q),
            None => forall|q: int| from <= q ==> !g2_at(s, q),
        },
    decreases s.len() - from,
{
    if from + 314 <= s.len() && !g2_at(s, from) {
        lemma_first_g2(s, from + 1);
    }
}

/// Whether a text of `n` characters holds a fixed part at a position.
fn holds(text: &str, n: usize, at: usize, part: &str) -> (r: bool)
    requires
        n == text@.len(),
    ensures
        r == has_at(text@, at as int, part@),
{
    let m: usize = part.unicode_len();
    if at > n || n - at < m {
        return false;
    }
    let mut i: usize = 0;
    while i < m
        invariant
            i <= m,
            n == text@.len(),
            m == part@.len(),
            at + m <= n,
            text@.subrange(at as int, at + i) == part@.take(i as int),
        decreases m - i,
    {
        if text.get_char(at + i) != part.get_char(i) {
            proof {
                if text@.subrange(at as int, at + m) == part@ {
                    assert(text@.subrange(at as int, at + m)[i as int] == part@[i as int]);
                }
            }
            return false;
        }
        proof {
            assert(text@.subrange(at as int, at + i + 1) =~= part@.take(i + 1));
        }
        i = i + 1;
    }
    proof {
        assert(part@.take(m as int) =~= part@);
    }
    true
}

/// Whether a character is a hexadecimal digit.
fn hex_digit(c: char) -> (r: bool)
    ensures
        r == (literal::digit_value(c) < 16),
{
    ('0' <= c && c <= '9') || ('a' <= c && c <= 'f') || ('A' <= c && c <= 'F')
}

/// The coordinate at a position of a text of `n` characters, where there
/// is one.
fn coordinate(text: &str, n: usize, at: usize) -> (r: Option<String>)
    requires
        n == text@.len(),
        at + 66 <= n,
    ensures
        match r {
            Some(c) => c@ == coordinate_at(text@, at as int) && is_coordinate(c@),
            None => !is_coordinate(coordinate_at(text@, at as int)),
        },
{
    let ghost c = coordinate_at(text@, at as int);
    let mark: char = text.get_char(at + 1);
    proof {
        assert(c[0] == text@[at as int]);
        assert(c[1] == text@[at + 1]);
    }
    if text.get_char(at) != '0' || (mark != 'x' && mark != 'X') {
        return None;
    }
    let mut i: usize = 2;
    while i < 66
        invariant
            2 <= i <= 66,
            n == text@.len(),
            at + 66 <= n,
            c == coordinate_at(text@, at as int),
            literal::all_digits(c.skip(2).take(i - 2), 16),
        decreases 66 - i,
    {
        let digit: bool = hex_digit(text.get_char(at + i));
        proof {
            assert(c.skip(2)[i - 2] == text@[at + i]);
        }
        if !digit {
            return None;
        }
        proof {
            let before = c.skip(2).take(i - 2);
            let after = c.skip(2).take(i - 1);
            assert forall|j: int| 0 <= j < after.len() implies literal::digit_value(
                #[trigger] after[j],
            ) < 16 by {
                if j < before.len() {
                    assert(after[j] == before[j]);
                }
            }
        }
        i = i + 1;
    }
    proof {
        assert(c.skip(2).take(64) =~= c.skip(2));
    }
    Some(String::from_str(text.substring_char(at, at + 66)))
}

/// The coordinates `x` and `y` of a point of the first group printed at a
/// position of a text of `n` characters.
fn g1_here(text: &str, n: usize, p: usize) -> (r: Option<(String, String)>)
    requires
        n == text@.len(),
        p + 150 <= n,
    ensures
        match r {
            Some((x, y)) => g1_at(text@, p as int) && x@ == coordinate_at(text@, p + 8) && y@
                == coordinate_at(text@, p + 82),
            None => !g1_at(text@, p as int),
        },
{
    if !holds(text, n, p, "G1(x=Fq(") || !holds(text, n, p + 74, "), y=Fq(") || !holds(
        text,
        n,
        p + 148,
        "))",
    ) {
        return None;
    }
    let x = match coordinate(text, n, p + 8) {
        Some(c) => c,
        None => {
            return None;
        },
    };
    let y = match coordinate(text, n, p + 82) {
        Some(c) => c,
        None => {
            return None;
        },
    };
    Some((x, y))
}

/// The coordinates of a point of the second group printed at a position of
/// a text of `n` characters, in the order printed: `x0`, `x1`, `y0`, `y1`.
fn g2_here(text: &str, n: usize, p: usize) -> (r: Option<(String, String, String, String)>)
    requires
        n == text@.len(),
        p + 314 <= n,
    ensures
        match r {
            Some((x0, x1, y0, y1)) => g2_at(text@, p as int) && x0@ == coordinate_at(text@, p + 12)
                && x1@ == coordinate_at(text@, p + 85) && y0@ == coordinate_at(text@, p + 168)
                && y1@ == coordinate_at(text@, p + 241),
            None => !g2_at(text@, p as int),
        },
{
    if !holds(text, n, p, "G2(x=Fq2(Fq(") || !holds(text, n, p + 78, ") + Fq(") || !holds(
        text,
        n,
        p + 151,
        ") * u), y=Fq2(Fq(",
    ) || !holds(text, n, p + 234, ") + Fq(") || !holds(text, n, p + 307, ") * u))") {
        return None;
    }
    let x0 = match coordinate(text, n, p + 12) {
        Some(c) => c,
        None => {
            return None;
        },
    };
    let x1 = match coordinate(text, n, p + 85) {
        Some(c) => c,
        None => {
            return None;
        },
    };
    let y0 = match coordinate(text, n, p + 168) {
        Some(c) => c,
        None => {
            return None;
        },
    };
    let y1 = match coordinate(text, n, p + 241) {
        Some(c) => c,
        None => {
            return None;
        },
    };
    Some((x0, x1, y0, y1))
}

/// The coordinates `x` and `y` of the first point of the first group that
/// the text holds; nothing where it holds none.
pub fn parse_g1(text: &str) -> (r: Option<(String, String)>)
    ensures
        match r {
            Some((x, y)) => g1_parts(text@) == Some((x@, y@)),
            None => g1_parts(text@) is None,
        },
{
    let n: usize = text.unicode_len();
    if n < 150 {
        return None;
    }
    let mut p: usize = 0;
    while p <= n - 150
        invariant
            n == text@.len(),
            n >= 150,
            p <= n - 150 + 1,
            first_g1(text@, 0) == first_g1(text@, p as int),
        decreases n - p,
    {
        match g1_here(text, n, p) {
            Some(found) => {
                return Some(found);
            },
            None => {},
        }
        p = p + 1;
    }
    None
}

/// The coordinates of the first point of the second group that the text
/// holds, as `(x1, x0, y1, y0)`: of `x` and then of `y`, each time the
/// coefficient of `u` first and the constant part second. Nothing where
/// the text holds no such point.
pub fn parse_g2(text: &str) -> (r: Option<(String, String, String, String)>)
    ensures
        match r {
            Some((x1, x0, y1, y0)) => g2_parts(text@) == Some((x1@, x0@, y1@, y0@)),
            None => g2_parts(text@) is None,
        },
{
    let n: usize = text.unicode_len();
    if n < 314 {
        return None;
    }
    let mut p: usize = 0;
    while p <= n - 314
        invariant
            n == text@.len(),
            n >= 314,
            p <= n - 314 + 1,
            first_g2(text@, 0) == first_g2(text@, p as int),
        decreases n - p,
    {
        match g2_here(text, n, p) {
            Some((x0, x1, y0, y1)) => {
                return Some((x1, x0, y1, y0));
            },
            None => {},
        }
        p = p + 1;
    }
    None
}

/// A point of the first group for a contract: `x, y`.
pub fn parse_g1_hex(text: &str) -> (r: Option<String>)
    ensures
        match r {
            Some(t) => g1_hex_text(text@) == Some(t@),
            None => g1_hex_text(text@) is None,
        },
{
    match parse_g1(text) {
        Some((x, y)) => {
            let mut out = x;
            out.append(", ");
            out.append(y.as_str());
            Some(out)
        },
        None => None,
    }
}

/// A point of the second group for a contract: `[x1, x0], [y1, y0]`.
pub fn parse_g2_hex(text: &str) -> (r: Option<String>)
    ensures
        match r {
            Some(t) => g2_hex_text(text@) == Some(t@),
            None => g2_hex_text(text@) is None,
        },
{
    match parse_g2(text) {
        Some((x1, x0, y1, y0)) => {
            let mut out = String::from_str("[");
            out.append(x1.as_str());
            out.append(", ");
            out.append(x0.as_str());
            out.append("], [");
            out.append(y1.as_str());
            out.append(", ");
            out.append(y0.as_str());
            out.append("]");
            proof {
                assert(out@ =~= "["@ + x1@ + ", "@ + x0@ + "], ["@ + y1@ + ", "@ + y0@ + "]"@);
            }
            Some(out)
        },
        None => None,
    }
}

} // verus!
