//! The constraints as a section of the proving-key file: the number of
//! equations in four bytes, then each equation's record behind its length
//! in four bytes. The numbers are big-endian.
use crate::algebra::qeq::QeqView;
use crate::storage::bytes;
use crate::storage::codec;
use crate::storage::error::Error;
use crate::storage::ram::RamConstraints;
use crate::storage::types::Constraints;
use byteorder::BigEndian;
use byteorder::ByteOrder;
use vstd::prelude::*;
use vstd::slice::*;
use vstd::string::*;

verus! {

/// `byteorder::BigEndian::read_u32`: the first four bytes of the buffer
/// read as a number, most significant byte first. It panics on a buffer of
/// fewer than four bytes.
#[verifier::external_body]
fn read_u32(buf: &[u8]) -> (n: u32)
    requires
        buf@.len() >= 4,
    ensures
        n == bytes::be_value(buf@.take(4)),
{
    BigEndian::read_u32(buf)
}

/// `byteorder::BigEndian::write_u32` on a buffer of four bytes: the four
/// bytes of the number, most significant byte first.
#[verifier::external_body]
fn write_u32(n: u32) -> (buf: [u8; 4])
    ensures
        buf@ == bytes::be_bytes(n as nat, 4),
{
    let mut buf = [0u8; 4];
    BigEndian::write_u32(&mut buf, n);
    buf
}

/// An equation's record behind its length.
pub open spec fn framed(q: QeqView) -> Seq<u8> {
    bytes::be_bytes(codec::enc_qeq(q).len(), 4) + codec::enc_qeq(q)
}

/// The framed records of the equations, one after the other.
pub open spec fn frames(list: Seq<QeqView>) -> Seq<u8>
    decreases list.len(),
{
    if list.len() == 0 {
        Seq::empty()
    } else {
        frames(list.drop_last()) + framed(list.last())
    }
}

/// The section: the number of equations, then their framed records.
pub open spec fn section(list: Seq<QeqView>) -> Seq<u8> {
    bytes::be_bytes(list.len(), 4) + frames(list)
}

/// Reads `count` framed records: the equations, and what follows them.
pub open spec fn parse_frames(s: Seq<u8>, count: nat) -> Option<(Seq<QeqView>, Seq<u8>)>
    decreases count,
{
    if count == 0 {
        Some((Seq::empty(), s))
    } else if s.len() < 4 {
        None
    } else {
        let n = bytes::be_value(s.take(4));
        let r = s.skip(4);
        if r.len() < n {
            None
        } else {
            match codec::qeq_of(r.take(n as int)) {
                Some(q) => match parse_frames(r.skip(n as int), (count - 1) as nat) {
                    Some((qs, rest)) => Some((seq![q] + qs, rest)),
                    None => None,
                },
                None => None,
            }
        }
    }
}

/// Reads a section: the equations, and what follows the section.
pub open spec fn parse_section(s: Seq<u8>) -> Option<(Seq<QeqView>, Seq<u8>)> {
    if s.len() < 4 {
        None
    } else {
        parse_frames(s.skip(4), bytes::be_value(s.take(4)))
    }
}

/// What fits a section: fewer than 2^32 equations, each with a record of
/// fewer than 2^32 bytes.
pub open spec fn fits(list: Seq<QeqView>) -> bool {
    &&& list.len() < 0x1_0000_0000
    &&& forall|i: int|
        0 <= i < list.len() ==> codec::storable_qeq(#[trigger] list[i]) && codec::enc_qeq(
            list[i],
        ).len() < 0x1_0000_0000
}

proof fn lemma_frames_first(q: QeqView, qs: Seq<QeqView>)
    ensures
        frames(seq![q] + qs) == framed(q) + frames(qs),
    decreases qs.len(),
{
    let all = seq![q] + qs;
    if qs.len() == 0 {
        assert(all.drop_last() =~= Seq::empty());
        assert(all.last() == q);
        assert(frames(Seq::<QeqView>::empty()) =~= Seq::empty());
        assert(frames(qs) =~= Seq::empty());
        assert(frames(all) =~= framed(q));
        assert(framed(q) + frames(qs) =~= framed(q));
    } else {
        assert(all.drop_last() =~= seq![q] + qs.drop_last());
        lemma_frames_first(q, qs.drop_last());
        assert(frames(all) =~= framed(q) + frames(qs));
    }
}

proof fn lemma_frames_round_trip(list: Seq<QeqView>, rest: Seq<u8>)
    requires
        fits(list),
    ensures
        parse_frames(frames(list) + rest, list.len()) == Some((list, rest)),
    decreases list.len(),
{
    if list.len() == 0 {
        assert(frames(list) + rest =~= rest);
        assert(list =~= Seq::empty());
    } else {
        let q = list.first();
        let qs = list.drop_first();
        assert(list =~= seq![q] + qs);
        lemma_frames_first(q, qs);
        let record = codec::enc_qeq(q);
        let s = frames(list) + rest;
        bytes::lemma_pow256();
        bytes::lemma_be_value_of_bytes(record.len(), 4);
        assert(s =~= bytes::be_bytes(record.len(), 4) + (record + (frames(qs) + rest)));
        assert(s.take(4) =~= bytes::be_bytes(record.len(), 4));
        assert(s.skip(4) =~= record + (frames(qs) + rest));
        assert(s.skip(4).take(record.len() as int) =~= record);
        assert(s.skip(4).skip(record.len() as int) =~= frames(qs) + rest);
        codec::lemma_qeq_of_record(q);
        assert forall|i: int| 0 <= i < qs.len() implies codec::storable_qeq(#[trigger] qs[i])
            && codec::enc_qeq(qs[i]).len() < 0x1_0000_0000 by {
            assert(qs[i] == list[i + 1]);
        }
        lemma_frames_round_trip(qs, rest);
    }
}

/// A section reads back as the equations that it was written from.
pub proof fn lemma_section_round_trip(list: Seq<QeqView>, rest: Seq<u8>)
    requires
        fits(list),
    ensures
        parse_section(section(list) + rest) == Some((list, rest)),
{
    let s = section(list) + rest;
    bytes::lemma_pow256();
    bytes::lemma_be_value_of_bytes(list.len(), 4);
    assert(s =~= bytes::be_bytes(list.len(), 4) + (frames(list) + rest));
    assert(s.take(4) =~= bytes::be_bytes(list.len(), 4));
    assert(s.skip(4) =~= frames(list) + rest);
    lemma_frames_round_trip(list, rest);
}

/// Writes the constraints as a section. A table or a record too large for
/// the four bytes of its length is refused.
pub fn write_constraints<C: Constraints>(constraints: &C) -> (r: Result<Vec<u8>, Error>)
    requires
        constraints.inv(),
    ensures
        match r {
            Ok(b) => b@ == section(constraints.list()) && fits(constraints.list()),
            Err(e) => (e is Encoding && !fits(constraints.list())) || !constraints.infallible(),
        },
{
    let n: usize = match constraints.len() {
        Ok(n) => n,
        Err(e) => {
            return Err(e);
        },
    };
    if n > u32::MAX as usize {
        return Err(Error::Encoding(String::from_str("too many constraints")));
    }
    let mut out: Vec<u8> = Vec::new();
    out.extend_from_slice(write_u32(n as u32).as_slice());
    let ghost list = constraints.list();
    let ghost start = out@;
    let mut i: usize = 0;
    proof {
        assert(frames(list.take(0)) =~= Seq::empty());
        assert(out@ =~= start + frames(list.take(0)));
    }
    while i < n
        invariant
            constraints.inv(),
            list == constraints.list(),
            n == list.len(),
            n < 0x1_0000_0000,
            i <= n,
            start == bytes::be_bytes(n as nat, 4),
            out@ == start + frames(list.take(i as int)),
            forall|k: int|
                0 <= k < i ==> codec::storable_qeq(#[trigger] list[k]) && codec::enc_qeq(
                    list[k],
                ).len() < 0x1_0000_0000,
        decreases n - i,
    {
        let q = match constraints.get(i) {
            Ok(q) => q,
            Err(e) => {
                return Err(io(e));
            },
        };
        let record = codec::encode_qeq(&q);
        if record.len() > u32::MAX as usize {
            return Err(Error::Encoding(String::from_str("a constraint's record is too long")));
        }
        out.extend_from_slice(write_u32(record.len() as u32).as_slice());
        out.extend_from_slice(record.as_slice());
        proof {
            let upto = list.take(i + 1);
            assert(upto.drop_last() =~= list.take(i as int));
            assert(upto.last() == list[i as int]);
            assert(out@ =~= start + frames(upto));
        }
        i = i + 1;
    }
    proof {
        assert(list.take(i as int) =~= list);
    }
    Ok(out)
}

/// An error of the store, passed on where the table has nothing to refuse.
fn io(e: Error) -> (r: Error)
    ensures
        !(r is Encoding),
{
    match e {
        Error::Encoding(m) => Error::Io(m),
        other => other,
    }
}

/// Reads a section into a table in memory, and tells where the section
/// ends. Bytes that do not start with a section are refused.
pub fn read_constraints(bytes: &[u8]) -> (r: Result<(RamConstraints, usize), Error>)
    ensures
        match r {
            Ok((c, end)) => c.inv() && end <= bytes@.len() && parse_section(bytes@) == Some(
                (c.list(), bytes@.skip(end as int)),
            ),
            Err(e) => e is Encoding && parse_section(bytes@) is None,
        },
{
    let mut constraints = RamConstraints::new();
    if bytes.len() < 4 {
        return Err(Error::Encoding(String::from_str("not a section of constraints")));
    }
    let count: u32 = read_u32(bytes);
    let ghost whole = parse_section(bytes@);
    let mut at: usize = 4;
    let mut k: u32 = 0;
    proof {
        match whole {
            Some((qs, rest)) => {
                assert(constraints.list() + qs =~= qs);
            },
            None => {},
        }
    }
    while k < count
        invariant
            constraints.inv(),
            k <= count,
            4 <= at <= bytes@.len(),
            whole == parse_section(bytes@),
            whole == (match parse_frames(bytes@.skip(at as int), (count - k) as nat) {
                Some((qs, rest)) => Some((constraints.list() + qs, rest)),
                None => None,
            }),
        decreases count - k,
    {
        let ghost s = bytes@.skip(at as int);
        let ghost before = constraints.list();
        if bytes.len() - at < 4 {
            return Err(Error::Encoding(String::from_str("a section of constraints breaks off")));
        }
        let n: usize = read_u32(slice_subrange(bytes, at, at + 4)) as usize;
        proof {
            assert(s.take(4) =~= bytes@.subrange(at as int, at + 4).take(4));
        }
        if bytes.len() - at - 4 < n {
            return Err(Error::Encoding(String::from_str("a section of constraints breaks off")));
        }
        let record = slice_subrange(bytes, at + 4, at + 4 + n);
        proof {
            assert(s.skip(4).take(n as int) =~= record@);
            assert(s.skip(4).skip(n as int) =~= bytes@.skip(at + 4 + n));
        }
        let q = match codec::decode_qeq(record) {
            Ok(q) => q,
            Err(e) => {
                return Err(e);
            },
        };
        let ghost view = q@;
        constraints.add(q);
        proof {
            match parse_frames(bytes@.skip(at + 4 + n), (count - k - 1) as nat) {
                Some((qs, rest)) => {
                    assert(before + (seq![view] + qs) =~= constraints.list() + qs);
                },
                None => {},
            }
        }
        at = at + 4 + n;
        k = k + 1;
    }
    proof {
        assert(constraints.list() + Seq::<QeqView>::empty() =~= constraints.list());
    }
    Ok((constraints, at))
}

} // verus!
