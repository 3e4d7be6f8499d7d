//! The encoding of the stored records. A record is a tree of items, each
//! with a head that tells its kind and its size: an unsigned number, a
//! string of bytes, a text, an array of items, or one of two marks. The
//! head is as short as the size allows, so an item has one encoding only.
use crate::algebra::field;
use crate::algebra::field::FS;
use crate::algebra::lc::SignalId;
use crate::algebra::lc::LC;
use crate::algebra::qeq::QeqView;
use crate::algebra::qeq::QEQ;
use crate::algebra::value::Value;
use crate::algebra::value::ValueView;
use crate::algebra::wide;
use crate::storage::bytes;
use crate::storage::error::Error;
use crate::storage::types::Signal;
use crate::storage::types::SignalType;
use crate::storage::types::SignalView;
use vstd::prelude::*;
use vstd::slice::*;
use vstd::string::*;
use vstd::utf8::*;

verus! {

/// The kinds of items.
pub const UNSIGNED: u8 = 0;

pub const BYTES: u8 = 2;

pub const TEXT: u8 = 3;

pub const ARRAY: u8 = 4;

pub const MARK: u8 = 7;

/// The head of an item: its kind in the upper three bits of the first
/// byte, and its size either in the lower five bits, below 24, or in the
/// 1, 2, 4 or 8 bytes that follow, the shortest form that holds it.
#[verifier::opaque]
pub open spec fn head(kind: u8, size: nat) -> Seq<u8> {
    let k = (kind * 32) as nat;
    if size < 24 {
        seq![(k + size) as u8]
    } else if size < 0x100 {
        seq![(k + 24) as u8] + bytes::be_bytes(size, 1)
    } else if size < 0x1_0000 {
        seq![(k + 25) as u8] + bytes::be_bytes(size, 2)
    } else if size < 0x1_0000_0000 {
        seq![(k + 26) as u8] + bytes::be_bytes(size, 4)
    } else {
        seq![(k + 27) as u8] + bytes::be_bytes(size, 8)
    }
}

/// Reads a head: the kind, the size and what follows the head. A head that
/// is longer than its size needs is refused.
#[verifier::opaque]
pub open spec fn parse_head(s: Seq<u8>) -> Option<(u8, nat, Seq<u8>)> {
    if s.len() == 0 {
        None
    } else {
        let kind = s[0] / 32;
        let low = s[0] % 32;
        if low < 24 {
            Some((kind, low as nat, s.skip(1)))
        } else if low == 24 {
            if s.len() >= 2 && bytes::be_value(s.subrange(1, 2)) >= 24 {
                Some((kind, bytes::be_value(s.subrange(1, 2)), s.skip(2)))
            } else {
                None
            }
        } else if low == 25 {
            if s.len() >= 3 && bytes::be_value(s.subrange(1, 3)) >= 0x100 {
                Some((kind, bytes::be_value(s.subrange(1, 3)), s.skip(3)))
            } else {
                None
            }
        } else if low == 26 {
            if s.len() >= 5 && bytes::be_value(s.subrange(1, 5)) >= 0x1_0000 {
                Some((kind, bytes::be_value(s.subrange(1, 5)), s.skip(5)))
            } else {
                None
            }
        } else if low == 27 {
            if s.len() >= 9 && bytes::be_value(s.subrange(1, 9)) >= 0x1_0000_0000 {
                Some((kind, bytes::be_value(s.subrange(1, 9)), s.skip(9)))
            } else {
                None
            }
        } else {
            None
        }
    }
}

/// A head reads back as what it was written from.
pub proof fn lemma_parse_head(kind: u8, size: nat, rest: Seq<u8>)
    requires
        kind < 8,
        size < 0x1_0000_0000_0000_0000,
    ensures
        parse_head(head(kind, size) + rest) == Some((kind, size, rest)),
{
    reveal(head);
    reveal(parse_head);
    let h = head(kind, size);
    let s = h + rest;
    bytes::lemma_pow256();
    let width: nat = if size < 24 {
        0
    } else if size < 0x100 {
        1
    } else if size < 0x1_0000 {
        2
    } else if size < 0x1_0000_0000 {
        4
    } else {
        8
    };
    if width > 0 {
        bytes::lemma_be_value_of_bytes(size, width);
        assert(s.subrange(1, 1 + width as int) =~= bytes::be_bytes(size, width));
    }
    assert(s.skip(h.len() as int) =~= rest);
}

/// What a head reads as, it is written from.
pub proof fn lemma_head_of_parse(s: Seq<u8>)
    ensures
        parse_head(s) matches Some((kind, size, rest)) ==> kind < 8 && size
            < 0x1_0000_0000_0000_0000 && s == head(kind, size) + rest,
{
    reveal(head);
    reveal(parse_head);
    bytes::lemma_pow256();
    if let Some((kind, size, rest)) = parse_head(s) {
        let low = s[0] % 32;
        let width: nat = if low < 24 {
            0
        } else if low == 24 {
            1
        } else if low == 25 {
            2
        } else if low == 26 {
            4
        } else {
            8
        };
        if width > 0 {
            let field = s.subrange(1, 1 + width as int);
            bytes::lemma_be_bytes_of_value(field);
            assert(s =~= seq![s[0]] + field + rest);
        } else {
            assert(s =~= seq![s[0]] + rest);
        }
    }
}

/// Appends the head of an item.
pub fn push_head(out: &mut Vec<u8>, kind: u8, size: u64)
    requires
        kind < 8,
    ensures
        final(out)@ == old(out)@ + head(kind, size as nat),
{
    proof {
        reveal(head);
    }
    let k: u8 = kind * 32;
    if size < 24 {
        out.push(k + size as u8);
    } else if size < 0x100 {
        out.push(k + 24);
        bytes::push_be(out, size as u128, 1);
    } else if size < 0x1_0000 {
        out.push(k + 25);
        bytes::push_be(out, size as u128, 2);
    } else if size < 0x1_0000_0000 {
        out.push(k + 26);
        bytes::push_be(out, size as u128, 4);
    } else {
        out.push(k + 27);
        bytes::push_be(out, size as u128, 8);
    }
    proof {
        assert(final(out)@ =~= old(out)@ + head(kind, size as nat));
    }
}

/// Reads the head of an item at a position: the kind, the size and the
/// position after the head.
pub fn read_head(bytes: &[u8], pos: usize) -> (r: Option<(u8, u64, usize)>)
    requires
        pos <= bytes@.len(),
    ensures
        match r {
            Some((kind, size, next)) => pos < next <= bytes@.len() && parse_head(
                bytes@.skip(pos as int),
            ) == Some((kind, size as nat, bytes@.skip(next as int))),
            None => parse_head(bytes@.skip(pos as int)) is None,
        },
{
    let ghost s = bytes@.skip(pos as int);
    proof {
        reveal(parse_head);
    }
    if pos >= bytes.len() {
        return None;
    }
    let first: u8 = bytes[pos];
    let kind: u8 = first / 32;
    let low: u8 = first % 32;
    let width: usize = if low < 24 {
        0
    } else if low == 24 {
        1
    } else if low == 25 {
        2
    } else if low == 26 {
        4
    } else if low == 27 {
        8
    } else {
        return None;
    };
    if width == 0 {
        proof {
            assert(s.skip(1) =~= bytes@.skip(pos + 1));
        }
        return Some((kind, low as u64, pos + 1));
    }
    if bytes.len() - pos < 1 + width {
        return None;
    }
    let size: u128 = bytes::read_be(bytes, pos + 1, width);
    proof {
        bytes::lemma_pow256();
        assert(s.subrange(1, 1 + width) =~= bytes@.subrange(pos + 1, pos + 1 + width));
        bytes::lemma_be_bytes_of_value(s.subrange(1, 1 + width));
        assert(s.skip(1 + width) =~= bytes@.skip(pos + 1 + width));
    }
    let least: u128 = if width == 1 {
        24
    } else if width == 2 {
        0x100
    } else if width == 4 {
        0x1_0000
    } else {
        0x1_0000_0000
    };
    if size < least {
        return None;
    }
    Some((kind, size as u64, pos + 1 + width))
}

/// The size of a field element's bytes.
pub const FIELD_BYTES: usize = 32;

/// A field element: its integer as 32 bytes.
pub open spec fn enc_fs(f: FS) -> Seq<u8> {
    head(BYTES, 32) + bytes::be_bytes(f@, 32)
}

pub open spec fn parse_fs(s: Seq<u8>) -> Option<(FS, Seq<u8>)> {
    match parse_head(s) {
        Some((kind, size, r)) => if kind == BYTES && size == 32 && r.len() >= 32 && bytes::be_value(
            r.take(32),
        ) < field::modulus() {
            Some((FS::of(bytes::be_value(r.take(32))), r.skip(32)))
        } else {
            None
        },
        None => None,
    }
}

/// A term: the pair of its signal and its coefficient.
pub open spec fn enc_term(t: (SignalId, FS)) -> Seq<u8> {
    head(ARRAY, 2) + head(UNSIGNED, t.0 as nat) + enc_fs(t.1)
}

pub open spec fn parse_term(s: Seq<u8>) -> Option<((SignalId, FS), Seq<u8>)> {
    match parse_head(s) {
        Some((kind, size, r)) => if kind == ARRAY && size == 2 {
            match parse_head(r) {
                Some((kind, id, r)) => if kind == UNSIGNED && id <= usize::MAX {
                    match parse_fs(r) {
                        Some((f, r)) => Some(((id as usize, f), r)),
                        None => None,
                    }
                } else {
                    None
                },
                None => None,
            }
        } else {
            None
        },
        None => None,
    }
}

/// Terms, one after the other.
pub open spec fn enc_terms(terms: Seq<(SignalId, FS)>) -> Seq<u8>
    decreases terms.len(),
{
    if terms.len() == 0 {
        Seq::empty()
    } else {
        enc_term(terms.first()) + enc_terms(terms.drop_first())
    }
}

pub open spec fn parse_terms(s: Seq<u8>, count: nat) -> Option<(Seq<(SignalId, FS)>, Seq<u8>)>
    decreases count,
{
    if count == 0 {
        Some((Seq::empty(), s))
    } else {
        match parse_term(s) {
            Some((t, r)) => match parse_terms(r, (count - 1) as nat) {
                Some((ts, r)) => Some((seq![t] + ts, r)),
                None => None,
            },
            None => None,
        }
    }
}

/// A linear combination: the array of its terms.
pub open spec fn enc_lc(terms: Seq<(SignalId, FS)>) -> Seq<u8> {
    head(ARRAY, terms.len()) + enc_terms(terms)
}

pub open spec fn parse_lc(s: Seq<u8>) -> Option<(Seq<(SignalId, FS)>, Seq<u8>)> {
    match parse_head(s) {
        Some((kind, size, r)) => if kind == ARRAY {
            parse_terms(r, size)
        } else {
            None
        },
        None => None,
    }
}

/// An optional value: the mark 22 for none, the mark 23 for an unknown
/// value, bytes for a scalar, an array for a combination.
pub open spec fn enc_value(v: Option<ValueView>) -> Seq<u8> {
    match v {
        None => head(MARK, 22),
        Some(ValueView::Unknown) => head(MARK, 23),
        Some(ValueView::FieldScalar(f)) => enc_fs(f),
        Some(ValueView::LinearCombination(terms)) => enc_lc(terms),
    }
}

pub open spec fn parse_value(s: Seq<u8>) -> Option<(Option<ValueView>, Seq<u8>)> {
    match parse_head(s) {
        Some((kind, size, r)) => if kind == MARK && size == 22 {
            Some((None, r))
        } else if kind == MARK && size == 23 {
            Some((Some(ValueView::Unknown), r))
        } else if kind == BYTES {
            match parse_fs(s) {
                Some((f, r)) => Some((Some(ValueView::FieldScalar(f)), r)),
                None => None,
            }
        } else if kind == ARRAY {
            match parse_lc(s) {
                Some((terms, r)) => Some((Some(ValueView::LinearCombination(terms)), r)),
                None => None,
            }
        } else {
            None
        },
        None => None,
    }
}

/// A text: its characters in UTF-8.
pub open spec fn enc_text(t: Seq<char>) -> Seq<u8> {
    head(TEXT, encode_utf8(t).len()) + encode_utf8(t)
}

pub open spec fn parse_text(s: Seq<u8>) -> Option<(Seq<char>, Seq<u8>)> {
    match parse_head(s) {
        Some((kind, size, r)) => if kind == TEXT && r.len() >= size && valid_utf8(
            r.take(size as int),
        ) {
            Some((decode_utf8(r.take(size as int)), r.skip(size as int)))
        } else {
            None
        },
        None => None,
    }
}

/// The number that a type of signal is stored as.
pub open spec fn type_tag(xtype: SignalType) -> nat {
    match xtype {
        SignalType::Internal => 0,
        SignalType::Input => 1,
        SignalType::Output => 2,
        SignalType::PublicInput => 3,
        SignalType::PrivateInput => 4,
        SignalType::Component => 5,
    }
}

pub open spec fn tag_type(tag: nat) -> Option<SignalType> {
    if tag == 0 {
        Some(SignalType::Internal)
    } else if tag == 1 {
        Some(SignalType::Input)
    } else if tag == 2 {
        Some(SignalType::Output)
    } else if tag == 3 {
        Some(SignalType::PublicInput)
    } else if tag == 4 {
        Some(SignalType::PrivateInput)
    } else if tag == 5 {
        Some(SignalType::Component)
    } else {
        None
    }
}

/// A signal's record: the array of identifier, type, full name and value.
pub open spec fn enc_signal(s: SignalView) -> Seq<u8> {
    head(ARRAY, 4) + head(UNSIGNED, s.id as nat) + head(UNSIGNED, type_tag(s.xtype)) + enc_text(
        s.full_name,
    ) + enc_value(s.value)
}

pub open spec fn parse_signal(s: Seq<u8>) -> Option<(SignalView, Seq<u8>)> {
    match parse_head(s) {
        Some((kind, size, r)) => if kind == ARRAY && size == 4 {
            match parse_head(r) {
                Some((kind, id, r)) => if kind == UNSIGNED && id <= usize::MAX {
                    match parse_head(r) {
                        Some((kind, tag, r)) => if kind == UNSIGNED && tag_type(tag) is Some {
                            match parse_text(r) {
                                Some((full_name, r)) => match parse_value(r) {
                                    Some((value, r)) => Some(
                                        (
                                            SignalView {
                                                id: id as usize,
                                                xtype: tag_type(tag)->0,
                                                full_name,
                                                value,
                                            },
                                            r,
                                        ),
                                    ),
                                    None => None,
                                },
                                None => None,
                            }
                        } else {
                            None
                        },
                        None => None,
                    }
                } else {
                    None
                },
                None => None,
            }
        } else {
            None
        },
        None => None,
    }
}

/// An equation's record: the array of its three combinations.
pub open spec fn enc_qeq(q: QeqView) -> Seq<u8> {
    head(ARRAY, 3) + enc_lc(q.a) + enc_lc(q.b) + enc_lc(q.c)
}

pub open spec fn parse_qeq(s: Seq<u8>) -> Option<(QeqView, Seq<u8>)> {
    match parse_head(s) {
        Some((kind, size, r)) => if kind == ARRAY && size == 3 {
            match parse_lc(r) {
                Some((a, r)) => match parse_lc(r) {
                    Some((b, r)) => match parse_lc(r) {
                        Some((c, r)) => Some((QeqView { a, b, c }, r)),
                        None => None,
                    },
                    None => None,
                },
                None => None,
            }
        } else {
            None
        },
        None => None,
    }
}

/// The signal that bytes are the record of.
pub open spec fn signal_of(s: Seq<u8>) -> Option<SignalView> {
    match parse_signal(s) {
        Some((v, rest)) => if rest.len() == 0 {
            Some(v)
        } else {
            None
        },
        None => None,
    }
}

/// The equation that bytes are the record of.
pub open spec fn qeq_of(s: Seq<u8>) -> Option<QeqView> {
    match parse_qeq(s) {
        Some((v, rest)) => if rest.len() == 0 {
            Some(v)
        } else {
            None
        },
        None => None,
    }
}

/// What can be stored: every coefficient is a reduced field element, and
/// there are fewer than 2^64 terms.
pub open spec fn storable_terms(terms: Seq<(SignalId, FS)>) -> bool {
    &&& terms.len() < 0x1_0000_0000_0000_0000
    &&& forall|i: int| 0 <= i < terms.len() ==> (#[trigger] terms[i]).1@ < field::modulus()
}

pub open spec fn storable_value(v: Option<ValueView>) -> bool {
    match v {
        Some(ValueView::FieldScalar(f)) => f@ < field::modulus(),
        Some(ValueView::LinearCombination(terms)) => storable_terms(terms),
        _ => true,
    }
}

pub open spec fn storable_signal(s: SignalView) -> bool {
    storable_value(s.value) && encode_utf8(s.full_name).len() < 0x1_0000_0000_0000_0000
}

pub open spec fn storable_qeq(q: QeqView) -> bool {
    storable_terms(q.a) && storable_terms(q.b) && storable_terms(q.c)
}

pub proof fn lemma_fs_round_trip(f: FS, rest: Seq<u8>)
    requires
        f@ < field::modulus(),
    ensures
        parse_fs(enc_fs(f) + rest) == Some((f, rest)),
{
    let field = bytes::be_bytes(f@, 32);
    bytes::lemma_pow256();
    bytes::lemma_pow256_sum(16, 16);
    assert(f@ < bytes::pow256(32)) by (nonlinear_arith)
        requires
            f@ < field::modulus(),
            bytes::pow256(32) == bytes::pow256(16) * bytes::pow256(16),
            bytes::pow256(16) == 0x1_0000_0000_0000_0000_0000_0000_0000_0000,
    ;
    bytes::lemma_be_value_of_bytes(f@, 32);
    lemma_parse_head(BYTES, 32, field + rest);
    assert(enc_fs(f) + rest =~= head(BYTES, 32) + (field + rest));
    assert((field + rest).take(32) =~= field);
    assert((field + rest).skip(32) =~= rest);
    f.lemma_of_view();
}

pub proof fn lemma_term_round_trip(t: (SignalId, FS), rest: Seq<u8>)
    requires
        t.1@ < field::modulus(),
    ensures
        parse_term(enc_term(t) + rest) == Some((t, rest)),
{
    let tail1 = head(UNSIGNED, t.0 as nat) + enc_fs(t.1) + rest;
    assert(enc_term(t) + rest =~= head(ARRAY, 2) + tail1);
    lemma_parse_head(ARRAY, 2, tail1);
    let tail2 = enc_fs(t.1) + rest;
    assert(tail1 =~= head(UNSIGNED, t.0 as nat) + tail2);
    lemma_parse_head(UNSIGNED, t.0 as nat, tail2);
    lemma_fs_round_trip(t.1, rest);
}

pub proof fn lemma_terms_round_trip(terms: Seq<(SignalId, FS)>, rest: Seq<u8>)
    requires
        storable_terms(terms),
    ensures
        parse_terms(enc_terms(terms) + rest, terms.len()) == Some((terms, rest)),
    decreases terms.len(),
{
    if terms.len() == 0 {
        assert(enc_terms(terms) + rest =~= rest);
        assert(terms =~= Seq::empty());
    } else {
        let t = terms.first();
        let others = terms.drop_first();
        let tail = enc_terms(others) + rest;
        assert(enc_terms(terms) + rest =~= enc_term(t) + tail);
        lemma_term_round_trip(t, tail);
        assert forall|i: int| 0 <= i < others.len() implies (#[trigger] others[i]).1@
            < field::modulus() by {
            assert(others[i] == terms[i + 1]);
        }
        lemma_terms_round_trip(others, rest);
        assert(seq![t] + others =~= terms);
    }
}

pub proof fn lemma_lc_round_trip(terms: Seq<(SignalId, FS)>, rest: Seq<u8>)
    requires
        storable_terms(terms),
    ensures
        parse_lc(enc_lc(terms) + rest) == Some((terms, rest)),
{
    let tail = enc_terms(terms) + rest;
    assert(enc_lc(terms) + rest =~= head(ARRAY, terms.len()) + tail);
    lemma_parse_head(ARRAY, terms.len(), tail);
    lemma_terms_round_trip(terms, rest);
}

pub proof fn lemma_value_round_trip(v: Option<ValueView>, rest: Seq<u8>)
    requires
        storable_value(v),
    ensures
        parse_value(enc_value(v) + rest) == Some((v, rest)),
{
    match v {
        None => {
            lemma_parse_head(MARK, 22, rest);
        },
        Some(ValueView::Unknown) => {
            lemma_parse_head(MARK, 23 as nat, rest);
        },
        Some(ValueView::FieldScalar(f)) => {
            let tail = bytes::be_bytes(f@, 32) + rest;
            assert(enc_fs(f) + rest =~= head(BYTES, 32) + tail);
            lemma_parse_head(BYTES, 32, tail);
            lemma_fs_round_trip(f, rest);
        },
        Some(ValueView::LinearCombination(terms)) => {
            let tail = enc_terms(terms) + rest;
            assert(enc_lc(terms) + rest =~= head(ARRAY, terms.len()) + tail);
            lemma_parse_head(ARRAY, terms.len(), tail);
            lemma_lc_round_trip(terms, rest);
        },
    }
}

pub proof fn lemma_text_round_trip(t: Seq<char>, rest: Seq<u8>)
    requires
        encode_utf8(t).len() < 0x1_0000_0000_0000_0000,
    ensures
        parse_text(enc_text(t) + rest) == Some((t, rest)),
{
    let b = encode_utf8(t);
    assert(enc_text(t) + rest =~= head(TEXT, b.len()) + (b + rest));
    lemma_parse_head(TEXT, b.len(), b + rest);
    assert((b + rest).take(b.len() as int) =~= b);
    assert((b + rest).skip(b.len() as int) =~= rest);
    encode_utf8_valid_utf8(t);
    encode_utf8_decode_utf8(t);
}

/// A signal's record reads back as the signal.
pub proof fn lemma_signal_round_trip(s: SignalView, rest: Seq<u8>)
    requires
        storable_signal(s),
    ensures
        parse_signal(enc_signal(s) + rest) == Some((s, rest)),
{
    let t4 = enc_value(s.value) + rest;
    let t3 = enc_text(s.full_name) + t4;
    let t2 = head(UNSIGNED, type_tag(s.xtype)) + t3;
    let t1 = head(UNSIGNED, s.id as nat) + t2;
    assert(enc_signal(s) + rest =~= head(ARRAY, 4) + t1);
    lemma_parse_head(ARRAY, 4, t1);
    lemma_parse_head(UNSIGNED, s.id as nat, t2);
    lemma_parse_head(UNSIGNED, type_tag(s.xtype), t3);
    lemma_text_round_trip(s.full_name, t4);
    lemma_value_round_trip(s.value, rest);
    assert(tag_type(type_tag(s.xtype)) == Some(s.xtype));
}

/// An equation's record reads back as the equation.
pub proof fn lemma_qeq_round_trip(q: QeqView, rest: Seq<u8>)
    requires
        storable_qeq(q),
    ensures
        parse_qeq(enc_qeq(q) + rest) == Some((q, rest)),
{
    let t3 = enc_lc(q.c) + rest;
    let t2 = enc_lc(q.b) + t3;
    let t1 = enc_lc(q.a) + t2;
    assert(enc_qeq(q) + rest =~= head(ARRAY, 3) + t1);
    lemma_parse_head(ARRAY, 3, t1);
    lemma_lc_round_trip(q.a, t2);
    lemma_lc_round_trip(q.b, t3);
    lemma_lc_round_trip(q.c, rest);
}

/// The record of a signal is the record of that signal only.
pub proof fn lemma_signal_of_record(s: SignalView)
    requires
        storable_signal(s),
    ensures
        signal_of(enc_signal(s)) == Some(s),
{
    lemma_signal_round_trip(s, Seq::empty());
    assert(enc_signal(s) + Seq::<u8>::empty() =~= enc_signal(s));
}

/// The record of an equation is the record of that equation only.
pub proof fn lemma_qeq_of_record(q: QeqView)
    requires
        storable_qeq(q),
    ensures
        qeq_of(enc_qeq(q)) == Some(q),
{
    lemma_qeq_round_trip(q, Seq::empty());
    assert(enc_qeq(q) + Seq::<u8>::empty() =~= enc_qeq(q));
}

/// Equations that are the same have the same record once they are in
/// canonical form, byte for byte.
pub proof fn lemma_canonical_record(p: QeqView, q: QeqView)
    requires
        p.canonical(),
        q.canonical(),
        p.same(q),
    ensures
        enc_qeq(p) == enc_qeq(q),
{
    crate::algebra::qeq::lemma_canonical_unique(p, q);
}

/// Appending a term appends its encoding.
pub proof fn lemma_enc_terms_push(terms: Seq<(SignalId, FS)>, t: (SignalId, FS))
    ensures
        enc_terms(terms.push(t)) == enc_terms(terms) + enc_term(t),
    decreases terms.len(),
{
    let all = terms.push(t);
    if terms.len() == 0 {
        assert(all.drop_first() =~= Seq::empty());
        assert(enc_terms(all.drop_first()) =~= Seq::empty());
        assert(enc_terms(all) =~= enc_term(t));
        assert(enc_terms(terms) + enc_term(t) =~= enc_term(t));
    } else {
        assert(all.drop_first() =~= terms.drop_first().push(t));
        lemma_enc_terms_push(terms.drop_first(), t);
        assert(enc_terms(all) =~= enc_terms(terms) + enc_term(t));
    }
}

/// `String::from_utf8` of the standard library: the text that the bytes
/// write in UTF-8, and nothing where they are not valid UTF-8.
#[verifier::external_body]
fn string_from_utf8(bytes: Vec<u8>) -> (r: Option<String>)
    ensures
        r is Some <==> valid_utf8(bytes@),
        r matches Some(s) ==> s@ == decode_utf8(bytes@),
{
    match String::from_utf8(bytes) {
        Ok(s) => Some(s),
        Err(_) => None,
    }
}

pub fn push_fs(out: &mut Vec<u8>, f: &FS)
    ensures
        final(out)@ == old(out)@ + enc_fs(*f),
        f@ < field::modulus(),
{
    let halves = f.to_halves();
    push_head(out, BYTES, 32);
    bytes::push_be(out, halves.0, 16);
    bytes::push_be(out, halves.1, 16);
    proof {
        let hi = bytes::be_bytes(halves.0 as nat, 16);
        let lo = bytes::be_bytes(halves.1 as nat, 16);
        bytes::lemma_pow256();
        bytes::lemma_be_value_of_bytes(halves.0 as nat, 16);
        bytes::lemma_be_value_of_bytes(halves.1 as nat, 16);
        bytes::lemma_be_value_concat(hi, lo);
        bytes::lemma_be_bytes_of_value(hi + lo);
        assert(final(out)@ =~= old(out)@ + enc_fs(*f));
    }
}

pub fn read_fs(bytes: &[u8], pos: usize) -> (r: Option<(FS, usize)>)
    requires
        pos <= bytes@.len(),
    ensures
        match r {
            Some((f, next)) => pos <= next <= bytes@.len() && parse_fs(bytes@.skip(pos as int))
                == Some((f, bytes@.skip(next as int))),
            None => parse_fs(bytes@.skip(pos as int)) is None,
        },
{
    let (kind, size, at) = match read_head(bytes, pos) {
        Some(h) => h,
        None => {
            return None;
        },
    };
    if kind != BYTES || size != 32 || bytes.len() - at < 32 {
        return None;
    }
    let hi: u128 = bytes::read_be(bytes, at, 16);
    let lo: u128 = bytes::read_be(bytes, at + 16, 16);
    proof {
        let r = bytes@.skip(at as int);
        let a = bytes@.subrange(at as int, at + 16);
        let b = bytes@.subrange(at + 16, at + 32);
        assert(r.take(32) =~= a + b);
        assert(r.skip(32) =~= bytes@.skip(at + 32));
        bytes::lemma_pow256();
        bytes::lemma_be_value_concat(a, b);
    }
    match FS::from_halves(hi, lo) {
        Some(f) => {
            proof {
                f.lemma_of_view();
            }
            Some((f, at + 32))
        },
        None => None,
    }
}

pub fn push_term(out: &mut Vec<u8>, t: &(SignalId, FS))
    ensures
        final(out)@ == old(out)@ + enc_term(*t),
        t.1@ < field::modulus(),
{
    push_head(out, ARRAY, 2);
    push_head(out, UNSIGNED, t.0 as u64);
    push_fs(out, &t.1);
    proof {
        assert(final(out)@ =~= old(out)@ + enc_term(*t));
    }
}

pub fn read_term(bytes: &[u8], pos: usize) -> (r: Option<((SignalId, FS), usize)>)
    requires
        pos <= bytes@.len(),
    ensures
        match r {
            Some((t, next)) => pos <= next <= bytes@.len() && parse_term(bytes@.skip(pos as int))
                == Some((t, bytes@.skip(next as int))),
            None => parse_term(bytes@.skip(pos as int)) is None,
        },
{
    let (kind, size, at) = match read_head(bytes, pos) {
        Some(h) => h,
        None => {
            return None;
        },
    };
    if kind != ARRAY || size != 2 {
        return None;
    }
    let (kind, id, at) = match read_head(bytes, at) {
        Some(h) => h,
        None => {
            return None;
        },
    };
    if kind != UNSIGNED || id > usize::MAX as u64 {
        return None;
    }
    match read_fs(bytes, at) {
        Some((f, next)) => Some(((id as usize, f), next)),
        None => None,
    }
}

pub fn push_lc(out: &mut Vec<u8>, terms: &Vec<(SignalId, FS)>)
    ensures
        final(out)@ == old(out)@ + enc_lc(terms@),
        storable_terms(terms@),
{
    push_head(out, ARRAY, terms.len() as u64);
    let ghost start = out@;
    let mut i: usize = 0;
    while i < terms.len()
        invariant
            i <= terms@.len(),
            out@ == start + enc_terms(terms@.take(i as int)),
            forall|k: int| 0 <= k < i ==> (#[trigger] terms@[k]).1@ < field::modulus(),
        decreases terms@.len() - i,
    {
        proof {
            lemma_enc_terms_push(terms@.take(i as int), terms@[i as int]);
            assert(terms@.take(i + 1) =~= terms@.take(i as int).push(terms@[i as int]));
        }
        push_term(out, &terms[i]);
        proof {
            assert(out@ =~= start + enc_terms(terms@.take(i + 1)));
        }
        i = i + 1;
    }
    proof {
        assert(terms@.take(i as int) =~= terms@);
        assert(final(out)@ =~= old(out)@ + enc_lc(terms@));
    }
}

pub fn read_lc(bytes: &[u8], pos: usize) -> (r: Option<(Vec<(SignalId, FS)>, usize)>)
    requires
        pos <= bytes@.len(),
    ensures
        match r {
            Some((terms, next)) => pos <= next <= bytes@.len() && parse_lc(bytes@.skip(pos as int))
                == Some((terms@, bytes@.skip(next as int))),
            None => parse_lc(bytes@.skip(pos as int)) is None,
        },
{
    let (kind, count, first) = match read_head(bytes, pos) {
        Some(h) => h,
        None => {
            return None;
        },
    };
    if kind != ARRAY {
        return None;
    }
    let ghost whole = parse_terms(bytes@.skip(first as int), count as nat);
    let mut terms: Vec<(SignalId, FS)> = Vec::new();
    let mut at: usize = first;
    let mut k: u64 = 0;
    proof {
        match whole {
            Some((ts, r)) => {
                assert(Seq::<(SignalId, FS)>::empty() + ts =~= ts);
            },
            None => {},
        }
    }
    while k < count
        invariant
            k <= count,
            first <= at <= bytes@.len(),
            pos <= first,
            whole == parse_lc(bytes@.skip(pos as int)),
            whole == (match parse_terms(bytes@.skip(at as int), (count - k) as nat) {
                Some((ts, r)) => Some((terms@ + ts, r)),
                None => None,
            }),
        decreases count - k,
    {
        let ghost before = terms@;
        match read_term(bytes, at) {
            Some((t, next)) => {
                terms.push(t);
                proof {
                    match parse_terms(bytes@.skip(next as int), (count - k - 1) as nat) {
                        Some((ts, r)) => {
                            assert(before + (seq![t] + ts) =~= terms@ + ts);
                        },
                        None => {},
                    }
                }
                at = next;
            },
            None => {
                return None;
            },
        }
        k = k + 1;
    }
    proof {
        assert(terms@ + Seq::<(SignalId, FS)>::empty() =~= terms@);
    }
    Some((terms, at))
}

pub fn push_value(out: &mut Vec<u8>, value: &Option<Value>)
    ensures
        final(out)@ == old(out)@ + enc_value(crate::storage::types::value_view(*value)),
        storable_value(crate::storage::types::value_view(*value)),
{
    match value {
        None => push_head(out, MARK, 22),
        Some(Value::Unknown) => push_head(out, MARK, 23),
        Some(Value::FieldScalar(f)) => push_fs(out, f),
        Some(Value::LinearCombination(l)) => push_lc(out, &l.0),
    }
}

pub fn read_value(bytes: &[u8], pos: usize) -> (r: Option<(Option<Value>, usize)>)
    requires
        pos <= bytes@.len(),
    ensures
        match r {
            Some((v, next)) => pos <= next <= bytes@.len() && parse_value(bytes@.skip(pos as int))
                == Some((crate::storage::types::value_view(v), bytes@.skip(next as int))),
            None => parse_value(bytes@.skip(pos as int)) is None,
        },
{
    let (kind, size, at) = match read_head(bytes, pos) {
        Some(h) => h,
        None => {
            return None;
        },
    };
    if kind == MARK && size == 22 {
        Some((None, at))
    } else if kind == MARK && size == 23 {
        Some((Some(Value::Unknown), at))
    } else if kind == BYTES {
        match read_fs(bytes, pos) {
            Some((f, next)) => Some((Some(Value::FieldScalar(f)), next)),
            None => None,
        }
    } else if kind == ARRAY {
        match read_lc(bytes, pos) {
            Some((terms, next)) => Some((Some(Value::LinearCombination(LC(terms))), next)),
            None => None,
        }
    } else {
        None
    }
}

pub fn push_text(out: &mut Vec<u8>, text: &str)
    ensures
        final(out)@ == old(out)@ + enc_text(text@),
        encode_utf8(text@).len() < 0x1_0000_0000_0000_0000,
{
    let b = text.as_bytes();
    push_head(out, TEXT, b.len() as u64);
    out.extend_from_slice(b);
    proof {
        assert(final(out)@ =~= old(out)@ + enc_text(text@));
    }
}

pub fn read_text(bytes: &[u8], pos: usize) -> (r: Option<(String, usize)>)
    requires
        pos <= bytes@.len(),
    ensures
        match r {
            Some((t, next)) => pos <= next <= bytes@.len() && parse_text(bytes@.skip(pos as int))
                == Some((t@, bytes@.skip(next as int))),
            None => parse_text(bytes@.skip(pos as int)) is None,
        },
{
    let (kind, size, at) = match read_head(bytes, pos) {
        Some(h) => h,
        None => {
            return None;
        },
    };
    if kind != TEXT || size > (bytes.len() - at) as u64 {
        return None;
    }
    let n: usize = size as usize;
    let raw = slice_to_vec(slice_subrange(bytes, at, at + n));
    proof {
        assert(bytes@.skip(at as int).take(n as int) =~= raw@);
        assert(bytes@.skip(at as int).skip(n as int) =~= bytes@.skip(at + n));
    }
    match string_from_utf8(raw) {
        Some(t) => Some((t, at + n)),
        None => None,
    }
}

/// The number that a type of signal is stored as.
pub fn tag_of(xtype: SignalType) -> (tag: u64)
    ensures
        tag == type_tag(xtype),
        tag_type(tag as nat) == Some(xtype),
{
    match xtype {
        SignalType::Internal => 0,
        SignalType::Input => 1,
        SignalType::Output => 2,
        SignalType::PublicInput => 3,
        SignalType::PrivateInput => 4,
        SignalType::Component => 5,
    }
}

/// The type of signal that a number stands for.
pub fn type_of(tag: u64) -> (r: Option<SignalType>)
    ensures
        r == tag_type(tag as nat),
{
    if tag == 0 {
        Some(SignalType::Internal)
    } else if tag == 1 {
        Some(SignalType::Input)
    } else if tag == 2 {
        Some(SignalType::Output)
    } else if tag == 3 {
        Some(SignalType::PublicInput)
    } else if tag == 4 {
        Some(SignalType::PrivateInput)
    } else if tag == 5 {
        Some(SignalType::Component)
    } else {
        None
    }
}

/// The record of a signal.
pub fn encode_signal(s: &Signal) -> (r: Vec<u8>)
    ensures
        r@ == enc_signal(s@),
        storable_signal(s@),
{
    let mut out: Vec<u8> = Vec::new();
    push_head(&mut out, ARRAY, 4);
    push_head(&mut out, UNSIGNED, s.id as u64);
    push_head(&mut out, UNSIGNED, tag_of(s.xtype));
    push_text(&mut out, s.full_name.as_str());
    push_value(&mut out, &s.value);
    proof {
        assert(out@ =~= enc_signal(s@));
    }
    out
}

/// The signal of a record. Bytes that are not the record of a signal, or
/// that go on after it, are refused.
pub fn decode_signal(bytes: &[u8]) -> (r: Result<Signal, Error>)
    ensures
        match r {
            Ok(s) => signal_of(bytes@) == Some(s@),
            Err(e) => e is Encoding && signal_of(bytes@) is None,
        },
{
    proof {
        assert(bytes@.skip(0) =~= bytes@);
    }
    match read_signal(bytes) {
        Some((s, next)) => {
            if next == bytes.len() {
                proof {
                    assert(bytes@.skip(next as int) =~= Seq::<u8>::empty());
                }
                Ok(s)
            } else {
                Err(Error::Encoding(String::from_str("bytes after a signal's record")))
            }
        },
        None => Err(Error::Encoding(String::from_str("not a signal's record"))),
    }
}

fn read_signal(bytes: &[u8]) -> (r: Option<(Signal, usize)>)
    ensures
        match r {
            Some((s, next)) => next <= bytes@.len() && parse_signal(bytes@) == Some(
                (s@, bytes@.skip(next as int)),
            ),
            None => parse_signal(bytes@) is None,
        },
{
    proof {
        assert(bytes@.skip(0) =~= bytes@);
    }
    let (kind, size, at) = match read_head(bytes, 0) {
        Some(h) => h,
        None => {
            return None;
        },
    };
    if kind != ARRAY || size != 4 {
        return None;
    }
    let (kind, id, at) = match read_head(bytes, at) {
        Some(h) => h,
        None => {
            return None;
        },
    };
    if kind != UNSIGNED || id > usize::MAX as u64 {
        return None;
    }
    let (kind, tag, at) = match read_head(bytes, at) {
        Some(h) => h,
        None => {
            return None;
        },
    };
    if kind != UNSIGNED {
        return None;
    }
    let xtype = match type_of(tag) {
        Some(t) => t,
        None => {
            return None;
        },
    };
    let (full_name, at) = match read_text(bytes, at) {
        Some(t) => t,
        None => {
            return None;
        },
    };
    let (value, at) = match read_value(bytes, at) {
        Some(v) => v,
        None => {
            return None;
        },
    };
    Some((Signal { id: id as usize, xtype, full_name, value }, at))
}

/// The record of an equation.
pub fn encode_qeq(q: &QEQ) -> (r: Vec<u8>)
    ensures
        r@ == enc_qeq(q@),
        storable_qeq(q@),
{
    let mut out: Vec<u8> = Vec::new();
    push_head(&mut out, ARRAY, 3);
    push_lc(&mut out, &q.a.0);
    push_lc(&mut out, &q.b.0);
    push_lc(&mut out, &q.c.0);
    proof {
        assert(out@ =~= enc_qeq(q@));
    }
    out
}

/// Reads the record of an equation at a position.
pub fn read_qeq(bytes: &[u8], pos: usize) -> (r: Option<(QEQ, usize)>)
    requires
        pos <= bytes@.len(),
    ensures
        match r {
            Some((q, next)) => pos <= next <= bytes@.len() && parse_qeq(bytes@.skip(pos as int))
                == Some((q@, bytes@.skip(next as int))),
            None => parse_qeq(bytes@.skip(pos as int)) is None,
        },
{
    let (kind, size, at) = match read_head(bytes, pos) {
        Some(h) => h,
        None => {
            return None;
        },
    };
    if kind != ARRAY || size != 3 {
        return None;
    }
    let (a, at) = match read_lc(bytes, at) {
        Some(l) => l,
        None => {
            return None;
        },
    };
    let (b, at) = match read_lc(bytes, at) {
        Some(l) => l,
        None => {
            return None;
        },
    };
    let (c, at) = match read_lc(bytes, at) {
        Some(l) => l,
        None => {
            return None;
        },
    };
    Some((QEQ { a: LC(a), b: LC(b), c: LC(c) }, at))
}

/// The equation of a record. Bytes that are not the record of an equation,
/// or that go on after it, are refused.
pub fn decode_qeq(bytes: &[u8]) -> (r: Result<QEQ, Error>)
    ensures
        match r {
            Ok(q) => qeq_of(bytes@) == Some(q@),
            Err(e) => e is Encoding && qeq_of(bytes@) is None,
        },
{
    proof {
        assert(bytes@.skip(0) =~= bytes@);
    }
    match read_qeq(bytes, 0) {
        Some((q, next)) => {
            if next == bytes.len() {
                proof {
                    assert(bytes@.skip(next as int) =~= Seq::<u8>::empty());
                }
                Ok(q)
            } else {
                Err(Error::Encoding(String::from_str("bytes after an equation's record")))
            }
        },
        None => Err(Error::Encoding(String::from_str("not an equation's record"))),
    }
}

} // verus!
