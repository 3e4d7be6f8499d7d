//! The persistent backend's layout: the tables as entries of a key-value
//! store. A key starts with a tag byte. Tag 0 holds the counter of entries,
//! tag 1 and an index of eight bytes hold an entry's record, tag 2 and a
//! signal's name hold that signal's index. Integers are big-endian.
use crate::algebra::field::FS;
use crate::algebra::lc::SignalId;
use crate::algebra::literal;
use crate::algebra::qeq::QeqView;
use crate::algebra::qeq::QEQ;
use crate::algebra::value::Value;
use crate::storage::bytes;
use crate::storage::codec;
use crate::storage::error::Error;
use crate::storage::types;
use crate::storage::types::Signal;
use crate::storage::types::SignalType;
use crate::storage::types::SignalView;
use vstd::prelude::*;
use vstd::slice::*;
use vstd::string::*;
use vstd::utf8::*;

verus! {

/// The eight bytes of a number, most significant byte first.
pub fn u64_to_le(v: u64) -> (r: [u8; 8])
    ensures
        r@ == bytes::be_bytes(v as nat, 8),
{
    let r: [u8; 8] = [
        ((v >> 56) & 0xff) as u8,
        ((v >> 48) & 0xff) as u8,
        ((v >> 40) & 0xff) as u8,
        ((v >> 32) & 0xff) as u8,
        ((v >> 24) & 0xff) as u8,
        ((v >> 16) & 0xff) as u8,
        ((v >> 8) & 0xff) as u8,
        (v & 0xff) as u8,
    ];
    proof {
        assert((v >> 56) & 0xff == (v / 0x100_0000_0000_0000) % 256) by (bit_vector);
        assert((v >> 48) & 0xff == (v / 0x1_0000_0000_0000) % 256) by (bit_vector);
        assert((v >> 40) & 0xff == (v / 0x100_0000_0000) % 256) by (bit_vector);
        assert((v >> 32) & 0xff == (v / 0x1_0000_0000) % 256) by (bit_vector);
        assert((v >> 24) & 0xff == (v / 0x100_0000) % 256) by (bit_vector);
        assert((v >> 16) & 0xff == (v / 0x1_0000) % 256) by (bit_vector);
        assert((v >> 8) & 0xff == (v / 0x100) % 256) by (bit_vector);
        assert(v & 0xff == v % 256) by (bit_vector);
        reveal_with_fuel(bytes::be_bytes, 9);
        assert(r@ =~= bytes::be_bytes(v as nat, 8));
    }
    r
}

/// The number that eight bytes write, most significant byte first.
pub fn le_to_u64(v: [u8; 8]) -> (r: u64)
    ensures
        r == bytes::be_value(v@),
{
    let b0: u64 = v[0] as u64;
    let b1: u64 = v[1] as u64;
    let b2: u64 = v[2] as u64;
    let b3: u64 = v[3] as u64;
    let b4: u64 = v[4] as u64;
    let b5: u64 = v[5] as u64;
    let b6: u64 = v[6] as u64;
    let b7: u64 = v[7] as u64;
    proof {
        assert(b6 < 256 ==> (b6 << 8) == b6 * 0x100) by (bit_vector);
        assert(b5 < 256 ==> (b5 << 16) == b5 * 0x1_0000) by (bit_vector);
        assert(b4 < 256 ==> (b4 << 24) == b4 * 0x100_0000) by (bit_vector);
        assert(b3 < 256 ==> (b3 << 32) == b3 * 0x1_0000_0000) by (bit_vector);
        assert(b2 < 256 ==> (b2 << 40) == b2 * 0x100_0000_0000) by (bit_vector);
        assert(b1 < 256 ==> (b1 << 48) == b1 * 0x1_0000_0000_0000) by (bit_vector);
        assert(b0 < 256 ==> (b0 << 56) == b0 * 0x100_0000_0000_0000) by (bit_vector);
        reveal_with_fuel(bytes::be_value, 9);
        let s = v@;
        assert(s.drop_last().drop_last().drop_last().drop_last().drop_last().drop_last().drop_last().drop_last().len()
            == 0);
    }
    b7 + (b6 << 8) + (b5 << 16) + (b4 << 24) + (b3 << 32) + (b2 << 40) + (b1 << 48) + (b0 << 56)
}

/// The number that a slice of eight bytes writes.
pub fn u64_from_slice(v: &[u8]) -> (r: u64)
    requires
        v@.len() == 8,
    ensures
        r == bytes::be_value(v@),
{
    let le: [u8; 8] = [v[0], v[1], v[2], v[3], v[4], v[5], v[6], v[7]];
    proof {
        assert(le@ =~= v@);
    }
    le_to_u64(le)
}

/// The tag of the key that holds the counter of entries.
pub const TAG_COUNTER: u8 = 0;

/// The tag of the keys that hold the entries, by index.
pub const TAG_ENTRY: u8 = 1;

/// The tag of the keys that hold the index of a signal, by name.
pub const TAG_NAME: u8 = 2;

/// How many signals lie between two reports of progress.
pub const PROGRESS_STEP: u64 = 100000;

pub open spec fn counter_key_spec() -> Seq<u8> {
    seq![TAG_COUNTER]
}

pub open spec fn entry_key_spec(index: u64) -> Seq<u8> {
    seq![TAG_ENTRY] + bytes::be_bytes(index as nat, 8)
}

pub open spec fn name_key_spec(full_name: Seq<char>) -> Seq<u8> {
    seq![TAG_NAME] + encode_utf8(full_name)
}

/// Different indices have different keys.
pub proof fn lemma_entry_key_injective(i: u64, j: u64)
    requires
        entry_key_spec(i) == entry_key_spec(j),
    ensures
        i == j,
{
    bytes::lemma_pow256();
    assert(entry_key_spec(i).skip(1) =~= bytes::be_bytes(i as nat, 8));
    assert(entry_key_spec(j).skip(1) =~= bytes::be_bytes(j as nat, 8));
    bytes::lemma_be_bytes_injective(i as nat, j as nat, 8);
}

/// Different names have different keys.
pub proof fn lemma_name_key_injective(a: Seq<char>, b: Seq<char>)
    requires
        name_key_spec(a) == name_key_spec(b),
    ensures
        a == b,
{
    assert(name_key_spec(a).skip(1) =~= encode_utf8(a));
    assert(name_key_spec(b).skip(1) =~= encode_utf8(b));
    encode_utf8_decode_utf8(a);
    encode_utf8_decode_utf8(b);
}

/// Keys of different tags differ.
pub proof fn lemma_keys_apart(index: u64, full_name: Seq<char>)
    ensures
        counter_key_spec() != entry_key_spec(index),
        counter_key_spec() != name_key_spec(full_name),
        entry_key_spec(index) != name_key_spec(full_name),
{
    assert(counter_key_spec()[0] == TAG_COUNTER);
    assert(entry_key_spec(index)[0] == TAG_ENTRY);
    assert(name_key_spec(full_name)[0] == TAG_NAME);
}

/// The key of the counter.
pub fn counter_key() -> (key: Vec<u8>)
    ensures
        key@ == counter_key_spec(),
{
    let mut key: Vec<u8> = Vec::new();
    key.push(TAG_COUNTER);
    proof {
        assert(key@ =~= counter_key_spec());
    }
    key
}

/// The key of the entry at an index.
pub fn entry_key(index: u64) -> (key: Vec<u8>)
    ensures
        key@ == entry_key_spec(index),
{
    let mut key: Vec<u8> = Vec::new();
    key.push(TAG_ENTRY);
    let index_bytes = u64_to_le(index);
    key.extend_from_slice(index_bytes.as_slice());
    proof {
        assert(key@ =~= entry_key_spec(index));
    }
    key
}

/// The key of a signal's name.
pub fn name_key(full_name: &str) -> (key: Vec<u8>)
    ensures
        key@ == name_key_spec(full_name@),
{
    let mut key: Vec<u8> = Vec::new();
    key.push(TAG_NAME);
    key.extend_from_slice(full_name.as_bytes());
    proof {
        assert(key@ =~= name_key_spec(full_name@));
    }
    key
}

/// What is stored under a key, as a sequence of bytes.
pub open spec fn stored(raw: Option<Vec<u8>>) -> Option<Seq<u8>> {
    match raw {
        Some(b) => Some(b@),
        None => None,
    }
}

/// The number that stored bytes hold: eight bytes. No bytes count as zero.
pub open spec fn number_spec(raw: Option<Seq<u8>>) -> Option<u64> {
    match raw {
        None => Some(0),
        Some(b) => if b.len() == 8 {
            Some(bytes::be_value(b) as u64)
        } else {
            None
        },
    }
}

/// Reads a stored number: the counter, or a signal's index.
pub fn number_of(raw: &Option<Vec<u8>>) -> (r: Result<u64, Error>)
    ensures
        match r {
            Ok(n) => number_spec(stored(*raw)) == Some(n),
            Err(e) => e is Encoding && number_spec(stored(*raw)) is None,
        },
{
    match raw {
        None => Ok(0),
        Some(b) => {
            if b.len() == 8 {
                Ok(u64_from_slice(b.as_slice()))
            } else {
                Err(Error::Encoding(String::from_str("a stored number is eight bytes")))
            }
        },
    }
}

/// One write to the store.
pub struct Write {
    pub key: Vec<u8>,
    pub value: Vec<u8>,
}

impl View for Write {
    type V = (Seq<u8>, Seq<u8>);

    open spec fn view(&self) -> (Seq<u8>, Seq<u8>) {
        (self.key@, self.value@)
    }
}

/// What the insertion of a signal writes, the table holding `count` signals:
/// the counter raised by one, the signal's record under its index, and its
/// index under its name.
pub open spec fn insert_writes(count: u64, s: SignalView) -> Seq<(Seq<u8>, Seq<u8>)> {
    seq![
        (counter_key_spec(), bytes::be_bytes((count + 1) as nat, 8)),
        (entry_key_spec(count), codec::enc_signal(s)),
        (name_key_spec(s.full_name), bytes::be_bytes(count as nat, 8)),
    ]
}

/// Plans the insertion of a signal, from what the store holds under the
/// counter's key and under the key of the signal's name. A name that is
/// stored already is refused with `AlreadyExists`.
pub fn signal_insert(
    counter: &Option<Vec<u8>>,
    taken: &Option<Vec<u8>>,
    full_name: String,
    xtype: SignalType,
    value: Option<Value>,
) -> (r: Result<(SignalId, Vec<Write>), Error>)
    ensures
        match r {
            Ok((id, writes)) => {
                &&& taken is None
                &&& number_spec(stored(*counter)) == Some(id as u64)
                &&& id < usize::MAX
                &&& writes@.len() == 3
                &&& writes@[0]@ == insert_writes(
                    id as u64,
                    SignalView { id, xtype, full_name: full_name@, value: types::value_view(value) },
                )[0]
                &&& writes@[1]@ == insert_writes(
                    id as u64,
                    SignalView { id, xtype, full_name: full_name@, value: types::value_view(value) },
                )[1]
                &&& writes@[2]@ == insert_writes(
                    id as u64,
                    SignalView { id, xtype, full_name: full_name@, value: types::value_view(value) },
                )[2]
                &&& codec::storable_signal(
                    SignalView { id, xtype, full_name: full_name@, value: types::value_view(value) },
                )
            },
            Err(e) => if taken is Some {
                e is AlreadyExists
            } else {
                e is Encoding && !(number_spec(stored(*counter)) matches Some(n) && n < usize::MAX)
            },
        },
{
    if taken.is_some() {
        return Err(Error::AlreadyExists(full_name));
    }
    let count: u64 = match number_of(counter) {
        Ok(n) => n,
        Err(e) => {
            return Err(e);
        },
    };
    if count >= usize::MAX as u64 {
        return Err(Error::Encoding(String::from_str("the table is full")));
    }
    let id: SignalId = count as usize;
    let name_at = name_key(full_name.as_str());
    let signal = Signal { id, xtype, full_name, value };
    let mut writes: Vec<Write> = Vec::new();
    writes.push(Write { key: counter_key(), value: slice_to_vec(u64_to_le(count + 1).as_slice()) });
    writes.push(Write { key: entry_key(count), value: codec::encode_signal(&signal) });
    writes.push(Write { key: name_at, value: slice_to_vec(u64_to_le(count).as_slice()) });
    Ok((id, writes))
}

/// Plans the seeding of a signal table, from what the store holds under the
/// counter's key: a table without signals takes the signal `one`, by the
/// writes of its insertion, and a table that holds signals takes nothing.
pub fn signal_seed(counter: &Option<Vec<u8>>) -> (r: Result<Option<Vec<Write>>, Error>)
    ensures
        match r {
            Ok(Some(w)) => number_spec(stored(*counter)) == Some(0u64) && w@.len() == 3
                && forall|k: int|
                0 <= k < 3 ==> (#[trigger] w@[k])@ == insert_writes(0, types::one_signal())[k],
            Ok(None) => number_spec(stored(*counter)) matches Some(n) && n > 0,
            Err(e) => e is Encoding && number_spec(stored(*counter)) is None,
        },
{
    let count: u64 = match number_of(counter) {
        Ok(n) => n,
        Err(e) => {
            return Err(e);
        },
    };
    if count > 0 {
        return Ok(None);
    }
    let one = FS::one();
    proof {
        one.lemma_of_view();
    }
    match signal_insert(
        counter,
        &None,
        String::from_str("one"),
        SignalType::PublicInput,
        Some(Value::FieldScalar(one)),
    ) {
        Ok((_, writes)) => Ok(Some(writes)),
        Err(e) => Err(e),
    }
}

/// Whether the insertion at an index is one to report progress at.
pub fn progress_due(index: u64) -> (r: bool)
    ensures
        r == (index % PROGRESS_STEP == 0),
{
    index % PROGRESS_STEP == 0
}

/// The signal that the store holds under an index: none without bytes, and
/// no answer for bytes that are not a signal's record.
pub open spec fn record_of(raw: Option<Seq<u8>>) -> Option<Option<SignalView>> {
    match raw {
        None => Some(None),
        Some(b) => match codec::signal_of(b) {
            Some(s) => Some(Some(s)),
            None => None,
        },
    }
}

/// Reads a signal's record as the store holds it under the signal's index.
pub fn signal_read(entry: &Option<Vec<u8>>) -> (r: Result<Option<Signal>, Error>)
    ensures
        match r {
            Ok(Some(s)) => record_of(stored(*entry)) == Some(Some(s@)),
            Ok(None) => entry is None,
            Err(e) => e is Encoding && record_of(stored(*entry)) is None,
        },
{
    match entry {
        None => Ok(None),
        Some(b) => match codec::decode_signal(b.as_slice()) {
            Ok(s) => Ok(Some(s)),
            Err(e) => Err(e),
        },
    }
}

/// Plans the update of a signal's value, from the record that the store
/// holds under the signal's index: the record is read, its value replaced,
/// and the whole record written back. Without a record the signal is
/// refused with `NotFound`.
pub fn signal_update(entry: &Option<Vec<u8>>, id: SignalId, value: Value) -> (r: Result<
    Write,
    Error,
>)
    ensures
        match r {
            Ok(w) => record_of(stored(*entry)) matches Some(Some(s)) && w@ == (
                entry_key_spec(id as u64),
                codec::enc_signal(types::with_value(s, value@)),
            ) && codec::storable_signal(types::with_value(s, value@)),
            Err(e) => if entry is None {
                e is NotFound
            } else {
                e is Encoding && record_of(stored(*entry)) is None
            },
        },
{
    match signal_read(entry) {
        Ok(Some(s)) => {
            let updated = Signal {
                id: s.id,
                xtype: s.xtype,
                full_name: s.full_name,
                value: Some(value),
            };
            Ok(Write { key: entry_key(id as u64), value: codec::encode_signal(&updated) })
        },
        Ok(None) => Err(Error::NotFound(String::from_str("signal"))),
        Err(e) => Err(e),
    }
}

/// What the push of an equation writes, the table holding `count`
/// equations: the counter raised by one, and the equation's record under
/// its index.
pub open spec fn push_writes(count: u64, q: QeqView) -> Seq<(Seq<u8>, Seq<u8>)> {
    seq![
        (counter_key_spec(), bytes::be_bytes((count + 1) as nat, 8)),
        (entry_key_spec(count), codec::enc_qeq(q)),
    ]
}

/// Plans the push of an equation, from what the store holds under the
/// counter's key.
pub fn constraint_push(counter: &Option<Vec<u8>>, qeq: &QEQ) -> (r: Result<
    (usize, Vec<Write>),
    Error,
>)
    ensures
        match r {
            Ok((index, writes)) => {
                &&& number_spec(stored(*counter)) == Some(index as u64)
                &&& index < usize::MAX
                &&& writes@.len() == 2
                &&& writes@[0]@ == push_writes(index as u64, qeq@)[0]
                &&& writes@[1]@ == push_writes(index as u64, qeq@)[1]
                &&& codec::storable_qeq(qeq@)
            },
            Err(e) => e is Encoding && !(number_spec(stored(*counter)) matches Some(n) && n
                < usize::MAX),
        },
{
    let count: u64 = match number_of(counter) {
        Ok(n) => n,
        Err(e) => {
            return Err(e);
        },
    };
    if count >= usize::MAX as u64 {
        return Err(Error::Encoding(String::from_str("the table is full")));
    }
    let mut writes: Vec<Write> = Vec::new();
    writes.push(Write { key: counter_key(), value: slice_to_vec(u64_to_le(count + 1).as_slice()) });
    writes.push(Write { key: entry_key(count), value: codec::encode_qeq(qeq) });
    Ok((count as usize, writes))
}

/// Reads an equation's record as the store holds it under an index.
/// Without a record the index is refused with `NotFound`.
pub fn constraint_read(entry: &Option<Vec<u8>>) -> (r: Result<QEQ, Error>)
    ensures
        match r {
            Ok(q) => entry matches Some(b) && codec::qeq_of(b@) == Some(q@),
            Err(e) => match entry {
                None => e is NotFound,
                Some(b) => e is Encoding && codec::qeq_of(b@) is None,
            },
        },
{
    match entry {
        None => Err(Error::NotFound(String::from_str("constraint"))),
        Some(b) => codec::decode_qeq(b.as_slice()),
    }
}

/// A path in a directory: the two joined by a slash, unless the directory
/// is empty or ends with one.
pub open spec fn path_in(directory: Seq<char>, name: Seq<char>) -> Seq<char> {
    if directory.len() == 0 || directory.last() == '/' {
        directory + name
    } else {
        directory + seq!['/'] + name
    }
}

/// The name of a table's store: what it holds, and its number.
pub open spec fn store_name(kind: Seq<char>, number: nat) -> Seq<char> {
    kind + literal::decimal_text(number)
}

/// Names the stores of the persistent tables: one directory for each table,
/// numbered in the order in which they are asked for, under a base path.
pub struct Rocks {
    base_path: String,
    count: usize,
}

impl Rocks {
    /// The base path.
    pub closed spec fn base(&self) -> Seq<char> {
        self.base_path@
    }

    /// How many stores have been named.
    pub closed spec fn named(&self) -> nat {
        self.count as nat
    }

    pub fn new(base_path: String) -> (r: Rocks)
        ensures
            r.base() == base_path@,
            r.named() == 0,
    {
        Rocks { base_path, count: 0 }
    }

    /// The path of the next store of a kind; nothing once the numbers have
    /// run out.
    fn next_path(&mut self, kind: &str) -> (r: Option<String>)
        ensures
            final(self).base() == old(self).base(),
            match r {
                Some(path) => path@ == path_in(
                    old(self).base(),
                    store_name(kind@, old(self).named()),
                ) && final(self).named() == old(self).named() + 1,
                None => old(self).named() == usize::MAX && final(self).named() == old(
                    self,
                ).named(),
            },
    {
        if self.count == usize::MAX {
            return None;
        }
        let mut path = self.base_path.clone();
        let len: usize = self.base_path.as_str().unicode_len();
        if len > 0 && self.base_path.as_str().get_char(len - 1) != '/' {
            path.append("/");
        }
        path.append(kind);
        path.append(FS::from_u64(self.count as u64).to_string().as_str());
        proof {
            reveal_strlit("/");
            assert("/"@ =~= seq!['/']);
            assert(path@ =~= path_in(old(self).base(), store_name(kind@, old(self).named())));
        }
        self.count = self.count + 1;
        Some(path)
    }

    /// The path of the store of a new signal table.
    pub fn new_signals_path(&mut self) -> (r: Option<String>)
        ensures
            final(self).base() == old(self).base(),
            match r {
                Some(path) => path@ == path_in(
                    old(self).base(),
                    store_name("_signals_"@, old(self).named()),
                ) && final(self).named() == old(self).named() + 1,
                None => old(self).named() == usize::MAX && final(self).named() == old(
                    self,
                ).named(),
            },
    {
        self.next_path("_signals_")
    }

    /// The path of the store of a new constraint table.
    pub fn new_constraints_path(&mut self) -> (r: Option<String>)
        ensures
            final(self).base() == old(self).base(),
            match r {
                Some(path) => path@ == path_in(
                    old(self).base(),
                    store_name("_constraints_"@, old(self).named()),
                ) && final(self).named() == old(self).named() + 1,
                None => old(self).named() == usize::MAX && final(self).named() == old(
                    self,
                ).named(),
            },
    {
        self.next_path("_constraints_")
    }
}

} // verus!
