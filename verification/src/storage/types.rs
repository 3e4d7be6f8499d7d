//! Signals, and the two tables as interfaces that a backend implements.
use crate::algebra::lc::SignalId;
use crate::algebra::qeq::QeqView;
use crate::algebra::qeq::QEQ;
use crate::algebra::value::Value;
use crate::algebra::value::ValueView;
use crate::algebra::text;
use crate::storage::error::Error;
use vstd::prelude::*;
use vstd::string::*;

verus! {

/// What kind of signal a circuit declares.
#[derive(Clone, Copy, Debug, PartialEq, Eq, Structural)]
pub enum SignalType {
    Internal,
    Input,
    Output,
    PublicInput,
    PrivateInput,
    Component,
}

/// A named scalar of the circuit, with its value once it has one.
#[derive(Debug)]
pub struct Signal {
    pub id: SignalId,
    pub xtype: SignalType,
    pub full_name: String,
    pub value: Option<Value>,
}

/// What a signal holds.
pub struct SignalView {
    pub id: SignalId,
    pub xtype: SignalType,
    pub full_name: Seq<char>,
    pub value: Option<ValueView>,
}

/// What an optional value holds.
pub open spec fn value_view(value: Option<Value>) -> Option<ValueView> {
    match value {
        Some(v) => Some(v@),
        None => None,
    }
}

impl View for Signal {
    type V = SignalView;

    open spec fn view(&self) -> SignalView {
        SignalView {
            id: self.id,
            xtype: self.xtype,
            full_name: self.full_name@,
            value: value_view(self.value),
        }
    }
}

impl Clone for Signal {
    fn clone(&self) -> (r: Signal)
        ensures
            r@ == self@,
    {
        let value = match &self.value {
            Some(v) => Some(v.clone()),
            None => None,
        };
        Signal { id: self.id, xtype: self.xtype, full_name: self.full_name.clone(), value }
    }
}

/// The name of a type of signal.
pub open spec fn type_text(xtype: SignalType) -> Seq<char> {
    match xtype {
        SignalType::Internal => "Internal"@,
        SignalType::Input => "Input"@,
        SignalType::Output => "Output"@,
        SignalType::PublicInput => "PublicInput"@,
        SignalType::PrivateInput => "PrivateInput"@,
        SignalType::Component => "Component"@,
    }
}

/// An optional value: `None`, or the value's text in `Some(` and `)`.
pub open spec fn optional_text(v: Option<ValueView>) -> Seq<char> {
    match v {
        Some(v) => "Some("@ + text::value_text(v) + ")"@,
        None => "None"@,
    }
}

/// A signal: its full name, its type and its value, with colons between.
pub open spec fn signal_text(s: SignalView) -> Seq<char> {
    s.full_name + ":"@ + type_text(s.xtype) + ":"@ + optional_text(s.value)
}

/// Whether a signal belongs to the public interface of the circuit: an
/// output or a public input of the main component, that is, of a full name
/// with one dot.
pub open spec fn is_public(s: SignalView) -> bool {
    s.full_name.filter(|c: char| c == '.').len() == 1 && (s.xtype == SignalType::Output || s.xtype
        == SignalType::PublicInput)
}

impl SignalType {
    /// The name of the type.
    pub fn name(&self) -> (r: &'static str)
        ensures
            r@ == type_text(*self),
    {
        match self {
            SignalType::Internal => "Internal",
            SignalType::Input => "Input",
            SignalType::Output => "Output",
            SignalType::PublicInput => "PublicInput",
            SignalType::PrivateInput => "PrivateInput",
            SignalType::Component => "Component",
        }
    }
}

impl Signal {
    /// The signal as text.
    pub fn to_string(&self) -> (r: String)
        ensures
            r@ == signal_text(self@),
    {
        let mut out = self.full_name.clone();
        out.append(":");
        out.append(self.xtype.name());
        out.append(":");
        match &self.value {
            Some(v) => {
                out.append("Some(");
                out.append(v.to_string().as_str());
                out.append(")");
            },
            None => {
                out.append("None");
            },
        }
        proof {
            assert(out@ =~= signal_text(self@));
        }
        out
    }

    /// Whether the signal belongs to the public interface of the circuit.
    pub fn is_public_input(&self) -> (r: bool)
        ensures
            r == is_public(self@),
    {
        let name = self.full_name.as_str();
        let n: usize = name.unicode_len();
        let mut dots: usize = 0;
        let mut i: usize = 0;
        let ghost dot = |c: char| c == '.';
        while i < n
            invariant
                i <= n,
                n == name@.len(),
                dot == |c: char| c == '.',
                dots == name@.take(i as int).filter(dot).len(),
                dots <= i,
            decreases n - i,
        {
            proof {
                let upto = name@.take(i + 1);
                assert(upto.drop_last() =~= name@.take(i as int));
                assert(upto.last() == name@[i as int]);
                reveal(Seq::filter);
            }
            if name.get_char(i) == '.' {
                dots = dots + 1;
            }
            i = i + 1;
        }
        proof {
            assert(name@.take(i as int) =~= name@);
        }
        dots == 1 && (self.xtype == SignalType::Output || self.xtype == SignalType::PublicInput)
    }
}

/// Identifiers are the positions in the table.
pub open spec fn dense(table: Seq<SignalView>) -> bool {
    forall|i: int| 0 <= i < table.len() ==> (#[trigger] table[i]).id == i
}

/// No two signals share a name.
pub open spec fn distinct_names(table: Seq<SignalView>) -> bool {
    forall|i: int, j: int|
        0 <= i < j < table.len() ==> (#[trigger] table[i]).full_name != (#[trigger] table[j]).full_name
}

/// A signal of that name is in the table.
pub open spec fn has_name(table: Seq<SignalView>, name: Seq<char>) -> bool {
    exists|i: int| 0 <= i < table.len() && (#[trigger] table[i]).full_name == name
}

/// Where the signal of that name stands.
pub open spec fn index_of(table: Seq<SignalView>, name: Seq<char>) -> int {
    choose|i: int| 0 <= i < table.len() && (#[trigger] table[i]).full_name == name
}

/// The signal `one`, which every table starts with.
pub open spec fn is_one(s: SignalView) -> bool {
    &&& s.id == 0
    &&& s.xtype == SignalType::PublicInput
    &&& s.full_name == "one"@
    &&& s.value matches Some(ValueView::FieldScalar(f)) && f@ == 1
}

/// The signal `one` itself: identifier 0, a public input, of value 1.
pub open spec fn one_signal() -> SignalView {
    SignalView {
        id: 0,
        xtype: SignalType::PublicInput,
        full_name: "one"@,
        value: Some(ValueView::FieldScalar(crate::algebra::field::FS::of(1))),
    }
}

/// `one_signal` is the signal `one`, and the only one.
pub proof fn lemma_one_signal(s: SignalView)
    ensures
        is_one(one_signal()),
        is_one(s) ==> s == one_signal(),
{
    crate::algebra::field::FS::lemma_of(1);
    if is_one(s) {
        let f = s.value->0->FieldScalar_0;
        f.lemma_of_view();
    }
}

/// A signal with another value.
pub open spec fn with_value(s: SignalView, value: ValueView) -> SignalView {
    SignalView { id: s.id, xtype: s.xtype, full_name: s.full_name, value: Some(value) }
}

/// In a table of distinct names, a name stands where it is found.
pub proof fn lemma_index_of(table: Seq<SignalView>, i: int)
    requires
        distinct_names(table),
        0 <= i < table.len(),
    ensures
        has_name(table, table[i].full_name),
        index_of(table, table[i].full_name) == i,
{
    let name = table[i].full_name;
    let j = index_of(table, name);
    if j < i {
        assert(table[j].full_name != table[i].full_name);
    } else if i < j {
        assert(table[i].full_name != table[j].full_name);
    }
}

/// What a signal table holds: the signals by identifier.
pub type SignalTable = Seq<SignalView>;

/// What a constraint table holds: the equations by index.
pub type ConstraintList = Seq<QeqView>;

/// The signal table: signals by identifier, in the order of insertion, and
/// found by name. Signals are never removed; values change in place.
pub trait Signals {
    /// The backend's own invariant.
    spec fn inv(&self) -> bool;

    /// The signals in the table, by identifier.
    spec fn table(&self) -> Seq<SignalView>;

    /// The backend's store cannot fail: an operation then fails only where
    /// the table itself refuses it.
    spec fn infallible(&self) -> bool;

    /// Identifiers are dense and names are distinct.
    proof fn lemma_table(&self)
        requires
            self.inv(),
        ensures
            dense(self.table()),
            distinct_names(self.table()),
    ;

    /// The number of signals, `one` among them.
    fn len(&self) -> (r: Result<usize, Error>)
        requires
            self.inv(),
        ensures
            r matches Ok(n) ==> n == self.table().len(),
            self.infallible() ==> r is Ok,
    ;

    /// The signal of an identifier; nothing beyond the table.
    fn get_by_id(&self, id: SignalId) -> (r: Result<Option<Signal>, Error>)
        requires
            self.inv(),
        ensures
            match r {
                Ok(Some(s)) => id < self.table().len() && s@ == self.table()[id as int],
                Ok(None) => id >= self.table().len(),
                Err(_) => !self.infallible(),
            },
    ;

    /// The signal of a full name; nothing for a name that is not in the table.
    fn get_by_name(&self, full_name: &str) -> (r: Result<Option<Signal>, Error>)
        requires
            self.inv(),
        ensures
            match r {
                Ok(Some(s)) => has_name(self.table(), full_name@) && s@ == self.table()[index_of(
                    self.table(),
                    full_name@,
                )],
                Ok(None) => !has_name(self.table(), full_name@),
                Err(_) => !self.infallible(),
            },
    ;

    /// The signal of an identifier as text; `NotFound` beyond the table.
    fn to_string(&self, id: SignalId) -> (r: Result<String, Error>)
        requires
            self.inv(),
        ensures
            match r {
                Ok(t) => id < self.table().len() && t@ == signal_text(self.table()[id as int]),
                Err(e) => (e is NotFound && id >= self.table().len()) || !self.infallible(),
            },
    ;

    /// Gives a signal a value. An unknown identifier is refused with `NotFound`.
    fn update(&mut self, id: SignalId, value: Value) -> (r: Result<(), Error>)
        requires
            old(self).inv(),
        ensures
            final(self).inv(),
            match r {
                Ok(_) => id < old(self).table().len() && final(self).table() == old(
                    self,
                ).table().update(id as int, with_value(old(self).table()[id as int], value@)),
                Err(e) => final(self).table() == old(self).table() && (e is NotFound ==> id >= old(
                    self,
                ).table().len()),
            },
            id >= old(self).table().len() ==> r is Err,
            final(self).infallible() == old(self).infallible(),
            old(self).infallible() ==> (r is Ok <==> id < old(self).table().len()) && (r matches Err(
                e,
            ) ==> e is NotFound),
    ;

    /// Appends a signal and returns its identifier, the number of signals
    /// before it. A name that is in the table is refused with `AlreadyExists`.
    fn insert(&mut self, full_name: String, xtype: SignalType, value: Option<Value>) -> (r: Result<
        SignalId,
        Error,
    >)
        requires
            old(self).inv(),
        ensures
            final(self).inv(),
            match r {
                Ok(id) => {
                    &&& !has_name(old(self).table(), full_name@)
                    &&& id == old(self).table().len()
                    &&& final(self).table() == old(self).table().push(
                        SignalView { id, xtype, full_name: full_name@, value: value_view(value) },
                    )
                },
                Err(e) => final(self).table() == old(self).table() && (e is AlreadyExists
                    ==> has_name(old(self).table(), full_name@)),
            },
            has_name(old(self).table(), full_name@) ==> r is Err,
            final(self).infallible() == old(self).infallible(),
            old(self).infallible() ==> (r is Ok <==> !has_name(old(self).table(), full_name@)) && (
            r matches Err(e) ==> e is AlreadyExists),
    ;
}

/// The constraint table: equations in the order in which they were pushed.
/// An equation is never changed nor removed.
pub trait Constraints {
    /// The backend's own invariant.
    spec fn inv(&self) -> bool;

    /// The equations in the table, by index.
    spec fn list(&self) -> Seq<QeqView>;

    /// The backend's store cannot fail: an operation then fails only where
    /// the table itself refuses it.
    spec fn infallible(&self) -> bool;

    /// The number of equations.
    fn len(&self) -> (r: Result<usize, Error>)
        requires
            self.inv(),
        ensures
            r matches Ok(n) ==> n == self.list().len(),
            self.infallible() ==> r is Ok,
    ;

    /// The equation at an index; `NotFound` beyond the end.
    fn get(&self, i: usize) -> (r: Result<QEQ, Error>)
        requires
            self.inv(),
        ensures
            match r {
                Ok(q) => i < self.list().len() && q@ == self.list()[i as int],
                Err(e) => e is NotFound ==> i >= self.list().len(),
            },
            i >= self.list().len() ==> r is Err,
            self.infallible() ==> (r is Ok <==> i < self.list().len()) && (r matches Err(e)
                ==> e is NotFound),
    ;

    /// Appends an equation and returns its index.
    fn push(&mut self, qeq: QEQ) -> (r: Result<usize, Error>)
        requires
            old(self).inv(),
        ensures
            final(self).inv(),
            match r {
                Ok(i) => i == old(self).list().len() && final(self).list() == old(
                    self,
                ).list().push(qeq@),
                Err(_) => final(self).list() == old(self).list(),
            },
            final(self).infallible() == old(self).infallible(),
            old(self).infallible() ==> r is Ok,
    ;
}

/// What makes the two tables of one run.
pub trait StorageFactory<S: Signals, C: Constraints> {
    /// A signal table that holds the signal `one` and nothing else.
    fn new_signals(&mut self) -> (r: Result<S, Error>)
        ensures
            r matches Ok(s) ==> s.inv() && s.table().len() == 1 && is_one(s.table()[0]),
    ;

    /// An empty constraint table.
    fn new_constraints(&mut self) -> (r: Result<C, Error>)
        ensures
            r matches Ok(c) ==> c.inv() && c.list().len() == 0,
    ;
}

} // verus!
