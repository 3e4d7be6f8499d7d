//! The in-memory backend: the tables as vectors, with an index by name.
use crate::algebra::field::FS;
use crate::algebra::lc::SignalId;
use crate::algebra::qeq::QeqView;
use crate::algebra::qeq::QEQ;
use crate::algebra::value::Value;
use crate::storage::error::Error;
use crate::storage::types;
use crate::storage::types::Constraints;
use crate::storage::types::Signal;
use crate::storage::types::SignalType;
use crate::storage::types::SignalView;
use crate::storage::types::Signals;
use crate::storage::types::StorageFactory;
use vstd::hash_map::StringHashMap;
use vstd::prelude::*;
use vstd::string::*;

verus! {

/// A word and a number, for a message.
fn numbered(what: &str, n: usize) -> (r: String)
    ensures
        r@ == what@ + crate::algebra::literal::decimal_text(n as nat),
{
    let mut r = String::from_str(what);
    r.append(crate::algebra::text::index_text(n).as_str());
    r
}

/// Makes in-memory tables.
pub struct Ram {}

impl Default for Ram {
    fn default() -> (r: Ram) {
        Ram {  }
    }
}

/// The signal table in memory.
pub struct RamSignals {
    names: StringHashMap<SignalId>,
    ids: Vec<Signal>,
}

/// The constraint table in memory.
pub struct RamConstraints(Vec<QEQ>);

impl RamSignals {
    /// The table with the signal `one` in it, of value 1.
    pub fn new() -> (r: RamSignals)
        ensures
            r.inv(),
            r.table().len() == 1,
            types::is_one(r.table()[0]),
    {
        let mut r = RamSignals { names: StringHashMap::new(), ids: Vec::new() };
        assert(r.table().len() == 0);
        let one = Signal {
            id: 0,
            xtype: SignalType::PublicInput,
            full_name: String::from_str("one"),
            value: Some(Value::FieldScalar(FS::one())),
        };
        r.names.insert(String::from_str("one"), 0);
        r.ids.push(one);
        proof {
            assert(r.table()[0] == r.ids@[0]@);
        }
        r
    }
}

/// All signals of a table as text: a heading, then one signal on each
/// line, in the order of the identifiers.
pub open spec fn dump_text(table: Seq<SignalView>) -> Seq<char>
    decreases table.len(),
{
    if table.len() == 0 {
        "signals --------------------------------------------\n"@
    } else {
        dump_text(table.drop_last()) + types::signal_text(table.last()) + "\n"@
    }
}

impl RamSignals {
    /// All signals as text.
    pub fn dump(&self) -> (r: String)
        requires
            self.inv(),
        ensures
            r@ == dump_text(self.table()),
    {
        let mut out = String::from_str("signals --------------------------------------------\n");
        let mut i: usize = 0;
        let ghost table = self.table();
        while i < self.ids.len()
            invariant
                i <= self.ids@.len(),
                table == self.table(),
                out@ == dump_text(table.take(i as int)),
            decreases self.ids@.len() - i,
        {
            out.append(self.ids[i].to_string().as_str());
            out.append("\n");
            proof {
                assert(table.take(i + 1).drop_last() =~= table.take(i as int));
                assert(table.take(i + 1).last() == self.ids@[i as int]@);
            }
            i = i + 1;
        }
        proof {
            assert(table.take(i as int) =~= table);
        }
        out
    }
}

impl Default for RamSignals {
    fn default() -> (r: RamSignals)
        ensures
            r.inv(),
            r.table().len() == 1,
            types::is_one(r.table()[0]),
    {
        RamSignals::new()
    }
}

impl Signals for RamSignals {
    closed spec fn inv(&self) -> bool {
        &&& forall|i: int| 0 <= i < self.ids@.len() ==> (#[trigger] self.ids@[i]).id == i
        &&& forall|i: int|
            0 <= i < self.ids@.len() ==> self.names@.contains_key(
                (#[trigger] self.ids@[i]).full_name@,
            ) && self.names@[self.ids@[i].full_name@] == i
        &&& forall|k: Seq<char>| #[trigger]
            self.names@.contains_key(k) ==> self.names@[k] < self.ids@.len()
                && self.ids@[self.names@[k] as int].full_name@ == k
    }

    closed spec fn table(&self) -> Seq<SignalView> {
        Seq::new(self.ids@.len(), |i: int| self.ids@[i]@)
    }

    open spec fn infallible(&self) -> bool {
        true
    }

    proof fn lemma_table(&self) {
        let t = self.table();
        assert forall|i: int, j: int| 0 <= i < j < t.len() implies (#[trigger] t[i]).full_name != (
        #[trigger] t[j]).full_name by {
            assert(self.names@[self.ids@[i].full_name@] == i);
            assert(self.names@[self.ids@[j].full_name@] == j);
        }
        assert forall|i: int| 0 <= i < t.len() implies (#[trigger] t[i]).id == i by {
            assert(self.ids@[i].id == i);
        }
    }

    fn len(&self) -> (r: Result<usize, Error>) {
        Ok(self.ids.len())
    }

    fn get_by_id(&self, id: SignalId) -> (r: Result<Option<Signal>, Error>) {
        if id < self.ids.len() {
            Ok(Some(self.ids[id].clone()))
        } else {
            Ok(None)
        }
    }

    fn get_by_name(&self, full_name: &str) -> (r: Result<Option<Signal>, Error>) {
        proof {
            self.lemma_table();
        }
        match self.names.get(full_name) {
            Some(id) => {
                proof {
                    types::lemma_index_of(self.table(), *id as int);
                }
                Ok(Some(self.ids[*id].clone()))
            },
            None => {
                proof {
                    if types::has_name(self.table(), full_name@) {
                        let i = types::index_of(self.table(), full_name@);
                        assert(self.names@.contains_key(self.ids@[i].full_name@));
                    }
                }
                Ok(None)
            },
        }
    }

    fn to_string(&self, id: SignalId) -> (r: Result<String, Error>) {
        if id < self.ids.len() {
            Ok(self.ids[id].to_string())
        } else {
            Err(Error::NotFound(numbered("signal ", id)))
        }
    }

    fn update(&mut self, id: SignalId, value: Value) -> (r: Result<(), Error>) {
        if id < self.ids.len() {
            let ghost before = self.ids@;
            let old_signal = &self.ids[id];
            let signal = Signal {
                id: old_signal.id,
                xtype: old_signal.xtype,
                full_name: old_signal.full_name.clone(),
                value: Some(value),
            };
            self.ids[id] = signal;
            proof {
                assert forall|i: int| 0 <= i < self.ids@.len() implies (#[trigger] self.ids@[i]).id
                    == i && self.ids@[i].full_name@ == before[i].full_name@ by {
                    if i != id {
                        assert(self.ids@[i] == before[i]);
                    }
                }
                assert(self.table() =~= old(self).table().update(
                    id as int,
                    types::with_value(old(self).table()[id as int], value@),
                ));
            }
            Ok(())
        } else {
            Err(Error::NotFound(numbered("signal ", id)))
        }
    }

    fn insert(&mut self, full_name: String, xtype: SignalType, value: Option<Value>) -> (r: Result<
        SignalId,
        Error,
    >) {
        let ghost before = self.ids@;
        if self.names.contains_key(full_name.as_str()) {
            proof {
                let k = self.names@[full_name@];
                assert(self.table()[k as int].full_name == full_name@);
            }
            return Err(Error::AlreadyExists(full_name));
        }
        proof {
            if types::has_name(self.table(), full_name@) {
                let i = types::index_of(self.table(), full_name@);
                assert(self.names@.contains_key(self.ids@[i].full_name@));
            }
        }
        let id: SignalId = self.ids.len();
        let ghost name = full_name@;
        let ghost view = SignalView { id, xtype, full_name: name, value: types::value_view(value) };
        self.names.insert(full_name.clone(), id);
        self.ids.push(Signal { id, xtype, full_name, value });
        proof {
            assert forall|i: int| 0 <= i < self.ids@.len() implies self.names@.contains_key(
                (#[trigger] self.ids@[i]).full_name@,
            ) && self.names@[self.ids@[i].full_name@] == i by {
                if i < id {
                    assert(self.ids@[i] == before[i]);
                }
            }
            assert forall|k: Seq<char>| #[trigger] self.names@.contains_key(k) implies self.names@[k]
                < self.ids@.len() && self.ids@[self.names@[k] as int].full_name@ == k by {
                if k != name {
                    assert(old(self).names@.contains_key(k));
                    assert(self.ids@[self.names@[k] as int] == before[self.names@[k] as int]);
                }
            }
            assert forall|i: int| 0 <= i < self.ids@.len() implies (#[trigger] self.ids@[i]).id
                == i by {
                if i < id {
                    assert(self.ids@[i] == before[i]);
                }
            }
            assert(self.table() =~= old(self).table().push(view));
        }
        Ok(id)
    }
}

impl RamConstraints {
    /// The empty table.
    pub fn new() -> (r: RamConstraints)
        ensures
            r.inv(),
            r.list().len() == 0,
    {
        RamConstraints(Vec::new())
    }
}

impl RamConstraints {
    /// Appends an equation and returns its index. In memory this cannot fail.
    pub fn add(&mut self, qeq: QEQ) -> (i: usize)
        requires
            old(self).inv(),
        ensures
            final(self).inv(),
            i == old(self).list().len(),
            final(self).list() == old(self).list().push(qeq@),
    {
        let ghost view = qeq@;
        let ghost before = self.0@;
        self.0.push(qeq);
        proof {
            assert forall|i: int| 0 <= i < before.len() implies self.0@[i] == before[i] by {}
            assert(self.list() =~= old(self).list().push(view));
        }
        self.0.len() - 1
    }
}

impl Default for RamConstraints {
    fn default() -> (r: RamConstraints)
        ensures
            r.inv(),
            r.list().len() == 0,
    {
        RamConstraints::new()
    }
}

impl Constraints for RamConstraints {
    closed spec fn inv(&self) -> bool {
        true
    }

    closed spec fn list(&self) -> Seq<QeqView> {
        Seq::new(self.0@.len(), |i: int| self.0@[i]@)
    }

    open spec fn infallible(&self) -> bool {
        true
    }

    fn len(&self) -> (r: Result<usize, Error>) {
        Ok(self.0.len())
    }

    fn get(&self, i: usize) -> (r: Result<QEQ, Error>) {
        if i < self.0.len() {
            Ok(self.0[i].clone())
        } else {
            Err(Error::NotFound(numbered("constraint at index ", i)))
        }
    }

    fn push(&mut self, qeq: QEQ) -> (r: Result<usize, Error>) {
        Ok(self.add(qeq))
    }
}

impl StorageFactory<RamSignals, RamConstraints> for Ram {
    fn new_signals(&mut self) -> (r: Result<RamSignals, Error>)
        ensures
            r is Ok,
    {
        Ok(RamSignals::new())
    }

    fn new_constraints(&mut self) -> (r: Result<RamConstraints, Error>)
        ensures
            r is Ok,
    {
        Ok(RamConstraints::new())
    }
}

} // verus!
