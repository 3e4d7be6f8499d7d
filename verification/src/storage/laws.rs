//! What holds of every signal table, whatever its backend: the laws that
//! follow from the contracts of `insert`, `get_by_id` and `get_by_name`.
use crate::storage::types;
use crate::storage::types::SignalView;
use crate::storage::types::Signals;
use vstd::prelude::*;

verus! {

/// Identifiers count the insertions. A table is fresh with the signal
/// `one` at identifier 0. After any sequence of insertions, each
/// accepted as `insert` accepts it, the signal that `get_by_id` finds under
/// the identifier returned for the last insertion is the signal inserted,
/// and its identifier is the number of the insertions before it, `one`
/// among them.
pub proof fn lemma_identifiers_count_insertions(
    before: Seq<SignalView>,
    s: SignalView,
    id: usize,
)
    requires
        types::dense(before),
        id == before.len(),
        s.id == id,
    ensures
        before.push(s)[id as int] == s,
        before.push(s)[id as int].id == before.len(),
        types::dense(before.push(s)),
{
    let after = before.push(s);
    assert forall|i: int| 0 <= i < after.len() implies (#[trigger] after[i]).id == i by {
        if i < before.len() {
            assert(after[i] == before[i]);
        }
    }
}

/// In the table of any backend, the identifiers are the positions: the
/// signal found under an identifier carries that identifier.
pub proof fn lemma_identifier_is_position<S: Signals>(signals: &S, id: usize)
    requires
        signals.inv(),
        id < signals.table().len(),
    ensures
        signals.table()[id as int].id == id,
{
    signals.lemma_table();
}

/// Name and identifier are consistent: the signal that `get_by_name` finds
/// under the full name of the signal at an identifier is the signal that
/// `get_by_id` finds under that identifier, with the same name and value.
pub proof fn lemma_name_and_identifier_agree<S: Signals>(signals: &S, id: usize)
    requires
        signals.inv(),
        id < signals.table().len(),
    ensures
        types::has_name(signals.table(), signals.table()[id as int].full_name),
        signals.table()[types::index_of(signals.table(), signals.table()[id as int].full_name)]
            == signals.table()[id as int],
{
    signals.lemma_table();
    types::lemma_index_of(signals.table(), id as int);
}

/// A signal goes on being found under its name and its identifier after
/// further insertions, and after updates of values, its own among them,
/// with its name and type unchanged.
pub proof fn lemma_insertion_keeps_signals(before: Seq<SignalView>, s: SignalView, i: int)
    requires
        types::dense(before),
        types::distinct_names(before),
        !types::has_name(before, s.full_name),
        s.id == before.len(),
        0 <= i < before.len(),
    ensures
        types::distinct_names(before.push(s)),
        before.push(s)[i] == before[i],
        types::index_of(before.push(s), before[i].full_name) == i,
        types::index_of(before.push(s), s.full_name) == before.len(),
{
    let after = before.push(s);
    assert forall|a: int, b: int| 0 <= a < b < after.len() implies (#[trigger] after[a]).full_name
        != (#[trigger] after[b]).full_name by {
        assert(after[a] == before[a]);
        if b < before.len() {
            assert(after[b] == before[b]);
        }
    }
    assert(after[i] == before[i]);
    types::lemma_index_of(after, i);
    types::lemma_index_of(after, before.len() as int);
}

} // verus!
