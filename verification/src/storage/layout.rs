//! What the persistent layout means: which table a store holds, and that
//! the planned writes take the store from one table to the next.
use crate::algebra::qeq::QeqView;
use crate::algebra::value::ValueView;
use crate::storage::bytes;
use crate::storage::codec;
use crate::storage::rocks;
use crate::storage::types;
use crate::storage::types::SignalView;
use vstd::prelude::*;

verus! {

/// What a store holds under a key.
pub open spec fn get(store: Map<Seq<u8>, Seq<u8>>, key: Seq<u8>) -> Option<Seq<u8>> {
    if store.contains_key(key) {
        Some(store[key])
    } else {
        None
    }
}

/// The store after a sequence of writes.
pub open spec fn apply(store: Map<Seq<u8>, Seq<u8>>, writes: Seq<(Seq<u8>, Seq<u8>)>) -> Map<
    Seq<u8>,
    Seq<u8>,
>
    decreases writes.len(),
{
    if writes.len() == 0 {
        store
    } else {
        apply(store, writes.drop_last()).insert(writes.last().0, writes.last().1)
    }
}

/// The store holds a signal table: the counter is the number of signals,
/// each signal's record lies under its index and nothing lies under an
/// index beyond, and the names that have an entry are those of the signals,
/// each with its signal's index.
pub open spec fn holds_signals(store: Map<Seq<u8>, Seq<u8>>, table: Seq<SignalView>) -> bool {
    &&& table.len() <= usize::MAX
    &&& types::dense(table)
    &&& types::distinct_names(table)
    &&& rocks::number_spec(get(store, rocks::counter_key_spec())) == Some(table.len() as u64)
    &&& forall|i: u64|
        i < table.len() ==> get(store, #[trigger] rocks::entry_key_spec(i)) == Some(
            codec::enc_signal(table[i as int]),
        )
    &&& forall|i: u64| i >= table.len() ==> !store.contains_key(#[trigger] rocks::entry_key_spec(i))
    &&& forall|i: int|
        0 <= i < table.len() ==> codec::storable_signal(#[trigger] table[i]) && get(
            store,
            rocks::name_key_spec(table[i].full_name),
        ) == Some(bytes::be_bytes(i as nat, 8))
    &&& forall|name: Seq<char>| #[trigger]
        store.contains_key(rocks::name_key_spec(name)) ==> types::has_name(table, name)
}

/// The store holds a constraint table: the counter is the number of
/// equations, each equation's record lies under its index and nothing lies
/// under an index beyond.
pub open spec fn holds_constraints(store: Map<Seq<u8>, Seq<u8>>, list: Seq<QeqView>) -> bool {
    &&& list.len() <= usize::MAX
    &&& rocks::number_spec(get(store, rocks::counter_key_spec())) == Some(list.len() as u64)
    &&& forall|i: u64|
        i < list.len() ==> codec::storable_qeq(list[i as int]) && get(
            store,
            #[trigger] rocks::entry_key_spec(i),
        ) == Some(codec::enc_qeq(list[i as int]))
    &&& forall|i: u64| i >= list.len() ==> !store.contains_key(#[trigger] rocks::entry_key_spec(i))
}

/// An empty store holds the empty tables.
pub proof fn lemma_empty_store()
    ensures
        holds_signals(Map::empty(), Seq::empty()),
        holds_constraints(Map::empty(), Seq::empty()),
{
}

/// Reading by identifier: the store gives the record of the signal at an
/// index of the table, and nothing beyond the table.
pub proof fn lemma_read_by_id(store: Map<Seq<u8>, Seq<u8>>, table: Seq<SignalView>, id: u64)
    requires
        holds_signals(store, table),
    ensures
        rocks::record_of(get(store, rocks::entry_key_spec(id))) == Some(
            if id < table.len() {
                Some(table[id as int])
            } else {
                None
            },
        ),
{
    if id < table.len() {
        codec::lemma_signal_of_record(table[id as int]);
    }
}

/// Reading by name: the store gives the index of the signal of a name, the
/// identifier under which the signal itself is read, and nothing for a name
/// that is not in the table.
pub proof fn lemma_read_by_name(store: Map<Seq<u8>, Seq<u8>>, table: Seq<SignalView>, name: Seq<char>)
    requires
        holds_signals(store, table),
    ensures
        types::has_name(table, name) ==> get(store, rocks::name_key_spec(name)) == Some(
            bytes::be_bytes(types::index_of(table, name) as nat, 8),
        ) && rocks::number_spec(get(store, rocks::name_key_spec(name))) == Some(
            types::index_of(table, name) as u64,
        ) && table[types::index_of(table, name)].id == types::index_of(table, name),
        !types::has_name(table, name) ==> get(store, rocks::name_key_spec(name)) is None,
{
    if types::has_name(table, name) {
        let i = types::index_of(table, name);
        bytes::lemma_pow256();
        bytes::lemma_be_value_of_bytes(i as nat, 8);
        assert(codec::storable_signal(table[i]));
    }
}

/// Inserting: the planned writes take a store that holds a table to one
/// that holds the table with the new signal appended. The signal's
/// identifier is the number of signals before it.
pub proof fn lemma_insert(store: Map<Seq<u8>, Seq<u8>>, table: Seq<SignalView>, s: SignalView)
    requires
        holds_signals(store, table),
        table.len() < usize::MAX,
        s.id == table.len(),
        !types::has_name(table, s.full_name),
        codec::storable_signal(s),
    ensures
        holds_signals(apply(store, rocks::insert_writes(s.id as u64, s)), table.push(s)),
{
    let count = s.id as u64;
    let writes = rocks::insert_writes(count, s);
    let ck = rocks::counter_key_spec();
    let ek = rocks::entry_key_spec(count);
    let nk = rocks::name_key_spec(s.full_name);
    let after = store.insert(ck, bytes::be_bytes((count + 1) as nat, 8)).insert(
        ek,
        codec::enc_signal(s),
    ).insert(nk, bytes::be_bytes(count as nat, 8));
    let next = table.push(s);
    assert(apply(store, writes) == after) by {
        reveal_with_fuel(apply, 4);
        assert(writes.drop_last().drop_last().drop_last() =~= Seq::empty());
    }
    bytes::lemma_pow256();
    bytes::lemma_be_value_of_bytes((count + 1) as nat, 8);
    rocks::lemma_keys_apart(count, s.full_name);
    assert forall|i: u64| i < next.len() implies get(after, #[trigger] rocks::entry_key_spec(i))
        == Some(codec::enc_signal(next[i as int])) by {
        rocks::lemma_keys_apart(i, s.full_name);
        if i != count {
            if rocks::entry_key_spec(i) == ek {
                rocks::lemma_entry_key_injective(i, count);
            }
            assert(get(store, rocks::entry_key_spec(i)) == Some(codec::enc_signal(table[i as int])));
        }
    }
    assert forall|i: u64| i >= next.len() implies !after.contains_key(
        #[trigger] rocks::entry_key_spec(i),
    ) by {
        rocks::lemma_keys_apart(i, s.full_name);
        if rocks::entry_key_spec(i) == ek {
            rocks::lemma_entry_key_injective(i, count);
        }
        assert(!store.contains_key(rocks::entry_key_spec(i)));
    }
    assert forall|i: int| 0 <= i < next.len() implies codec::storable_signal(#[trigger] next[i])
        && get(after, rocks::name_key_spec(next[i].full_name)) == Some(
        bytes::be_bytes(i as nat, 8),
    ) by {
        rocks::lemma_keys_apart(count, next[i].full_name);
        if i < table.len() {
            assert(next[i] == table[i]);
            assert(codec::storable_signal(table[i]));
            if rocks::name_key_spec(table[i].full_name) == nk {
                rocks::lemma_name_key_injective(table[i].full_name, s.full_name);
            }
        }
    }
    assert forall|name: Seq<char>| #[trigger]
        after.contains_key(rocks::name_key_spec(name)) implies types::has_name(next, name) by {
        rocks::lemma_keys_apart(count, name);
        if rocks::name_key_spec(name) == nk {
            rocks::lemma_name_key_injective(name, s.full_name);
            assert(next[table.len() as int].full_name == name);
        } else {
            assert(store.contains_key(rocks::name_key_spec(name)));
            let i = types::index_of(table, name);
            assert(next[i].full_name == name);
        }
    }
    assert(types::dense(next)) by {
        assert forall|i: int| 0 <= i < next.len() implies (#[trigger] next[i]).id == i by {
            if i < table.len() {
                assert(next[i] == table[i]);
            }
        }
    }
    assert(types::distinct_names(next)) by {
        assert forall|i: int, j: int| 0 <= i < j < next.len() implies (#[trigger] next[i]).full_name
            != (#[trigger] next[j]).full_name by {
            assert(next[i] == table[i]);
            if j < table.len() {
                assert(next[j] == table[j]);
            }
        }
    }
}

/// Seeding: the writes that seed a store without signals take it to a store
/// that holds the signal `one` and nothing else.
pub proof fn lemma_seed(store: Map<Seq<u8>, Seq<u8>>)
    requires
        holds_signals(store, Seq::empty()),
    ensures
        holds_signals(
            apply(store, rocks::insert_writes(0, types::one_signal())),
            seq![types::one_signal()],
        ),
        types::is_one(types::one_signal()),
{
    types::lemma_one_signal(types::one_signal());
    assert(codec::storable_signal(types::one_signal())) by {
        crate::algebra::field::FS::lemma_of(1);
        reveal_strlit("one");
        vstd::utf8::is_ascii_chars_encode_utf8("one"@);
    }
    lemma_insert(store, Seq::empty(), types::one_signal());
    assert(Seq::<SignalView>::empty().push(types::one_signal()) =~= seq![types::one_signal()]);
}

/// Updating: the planned write takes a store that holds a table to one that
/// holds the table with the signal's value replaced.
pub proof fn lemma_update(
    store: Map<Seq<u8>, Seq<u8>>,
    table: Seq<SignalView>,
    id: u64,
    value: ValueView,
)
    requires
        holds_signals(store, table),
        id < table.len(),
        codec::storable_signal(types::with_value(table[id as int], value)),
    ensures
        holds_signals(
            store.insert(
                rocks::entry_key_spec(id),
                codec::enc_signal(types::with_value(table[id as int], value)),
            ),
            table.update(id as int, types::with_value(table[id as int], value)),
        ),
{
    let ek = rocks::entry_key_spec(id);
    let s = types::with_value(table[id as int], value);
    let after = store.insert(ek, codec::enc_signal(s));
    let next = table.update(id as int, s);
    rocks::lemma_keys_apart(id, Seq::empty());
    assert forall|i: u64| i < next.len() implies get(after, #[trigger] rocks::entry_key_spec(i))
        == Some(codec::enc_signal(next[i as int])) by {
        if i != id {
            if rocks::entry_key_spec(i) == ek {
                rocks::lemma_entry_key_injective(i, id);
            }
            assert(get(store, rocks::entry_key_spec(i)) == Some(codec::enc_signal(table[i as int])));
        }
    }
    assert forall|i: u64| i >= next.len() implies !after.contains_key(
        #[trigger] rocks::entry_key_spec(i),
    ) by {
        if rocks::entry_key_spec(i) == ek {
            rocks::lemma_entry_key_injective(i, id);
        }
        assert(!store.contains_key(rocks::entry_key_spec(i)));
    }
    assert forall|i: int| 0 <= i < next.len() implies codec::storable_signal(#[trigger] next[i])
        && get(after, rocks::name_key_spec(next[i].full_name)) == Some(
        bytes::be_bytes(i as nat, 8),
    ) by {
        rocks::lemma_keys_apart(id, next[i].full_name);
        assert(next[i].full_name == table[i].full_name);
        assert(codec::storable_signal(table[i]));
    }
    assert forall|name: Seq<char>| #[trigger]
        after.contains_key(rocks::name_key_spec(name)) implies types::has_name(next, name) by {
        rocks::lemma_keys_apart(id, name);
        assert(store.contains_key(rocks::name_key_spec(name)));
        let i = types::index_of(table, name);
        assert(next[i].full_name == name);
    }
    assert(types::dense(next)) by {
        assert forall|i: int| 0 <= i < next.len() implies (#[trigger] next[i]).id == i by {
            assert(table[i].id == i);
        }
    }
    assert(types::distinct_names(next)) by {
        assert forall|i: int, j: int| 0 <= i < j < next.len() implies (#[trigger] next[i]).full_name
            != (#[trigger] next[j]).full_name by {
            assert(next[i].full_name == table[i].full_name);
            assert(next[j].full_name == table[j].full_name);
        }
    }
}

/// Pushing: the planned writes take a store that holds a list of equations
/// to one that holds the list with the new equation appended.
pub proof fn lemma_push(store: Map<Seq<u8>, Seq<u8>>, list: Seq<QeqView>, q: QeqView)
    requires
        holds_constraints(store, list),
        list.len() < usize::MAX,
        codec::storable_qeq(q),
    ensures
        holds_constraints(apply(store, rocks::push_writes(list.len() as u64, q)), list.push(q)),
{
    let count = list.len() as u64;
    let writes = rocks::push_writes(count, q);
    let ck = rocks::counter_key_spec();
    let ek = rocks::entry_key_spec(count);
    let after = store.insert(ck, bytes::be_bytes((count + 1) as nat, 8)).insert(
        ek,
        codec::enc_qeq(q),
    );
    let next = list.push(q);
    assert(apply(store, writes) == after) by {
        reveal_with_fuel(apply, 3);
        assert(writes.drop_last().drop_last() =~= Seq::empty());
    }
    bytes::lemma_pow256();
    bytes::lemma_be_value_of_bytes((count + 1) as nat, 8);
    rocks::lemma_keys_apart(count, Seq::empty());
    assert forall|i: u64| i < next.len() implies codec::storable_qeq(next[i as int]) && get(
        after,
        #[trigger] rocks::entry_key_spec(i),
    ) == Some(codec::enc_qeq(next[i as int])) by {
        rocks::lemma_keys_apart(i, Seq::empty());
        if i != count {
            if rocks::entry_key_spec(i) == ek {
                rocks::lemma_entry_key_injective(i, count);
            }
            assert(get(store, rocks::entry_key_spec(i)) == Some(codec::enc_qeq(list[i as int])));
        }
    }
    assert forall|i: u64| i >= next.len() implies !after.contains_key(
        #[trigger] rocks::entry_key_spec(i),
    ) by {
        rocks::lemma_keys_apart(i, Seq::empty());
        if rocks::entry_key_spec(i) == ek {
            rocks::lemma_entry_key_injective(i, count);
        }
        assert(!store.contains_key(rocks::entry_key_spec(i)));
    }
}

/// Reading an equation: the store gives the record of the equation at an
/// index of the list, and nothing beyond the list.
pub proof fn lemma_read_constraint(store: Map<Seq<u8>, Seq<u8>>, list: Seq<QeqView>, i: u64)
    requires
        holds_constraints(store, list),
    ensures
        i < list.len() ==> get(store, rocks::entry_key_spec(i)) == Some(
            codec::enc_qeq(list[i as int]),
        ) && codec::qeq_of(codec::enc_qeq(list[i as int])) == Some(list[i as int]),
        i >= list.len() ==> get(store, rocks::entry_key_spec(i)) is None,
{
    if i < list.len() {
        codec::lemma_qeq_of_record(list[i as int]);
    }
}

} // verus!
