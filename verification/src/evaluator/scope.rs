//! Scopes: the activation records of the components under evaluation. A
//! scope carries the path of its component, which prefixes the names of the
//! component's signals, and the local variables declared in it. A name is
//! resolved in the innermost scope that declares it.
use crate::algebra::value::Value;
use crate::algebra::value::ValueView;
use crate::evaluator::error::Error;
use vstd::prelude::*;
use vstd::string::*;

verus! {

/// One activation record.
pub struct Frame {
    prefix: String,
    variables: Vec<(String, Value)>,
    components: Vec<String>,
}

/// What an activation record holds.
pub struct FrameView {
    /// The path of the component.
    pub prefix: Seq<char>,
    /// The local variables, in the order of their declarations.
    pub variables: Seq<(Seq<char>, ValueView)>,
    /// The names of the sub-components, in the order of their declarations.
    pub components: Seq<Seq<char>>,
}

/// The stack of activation records, the innermost last.
pub struct Scope {
    frames: Vec<Frame>,
}

/// A name under a prefix: the two joined by a dot, or the name alone under
/// the empty prefix.
pub open spec fn qualified(prefix: Seq<char>, name: Seq<char>) -> Seq<char> {
    if prefix.len() == 0 {
        name
    } else {
        prefix + seq!['.'] + name
    }
}

/// Where a record declares a name.
pub open spec fn slot_of(variables: Seq<(Seq<char>, ValueView)>, name: Seq<char>) -> Option<int>
    decreases variables.len(),
{
    if variables.len() == 0 {
        None
    } else if variables.last().0 == name {
        Some(variables.len() - 1)
    } else {
        slot_of(variables.drop_last(), name)
    }
}

/// The innermost record that declares a name, and where.
pub open spec fn resolve(frames: Seq<FrameView>, name: Seq<char>) -> Option<(int, int)>
    decreases frames.len(),
{
    if frames.len() == 0 {
        None
    } else {
        match slot_of(frames.last().variables, name) {
            Some(k) => Some((frames.len() - 1, k)),
            None => resolve(frames.drop_last(), name),
        }
    }
}

/// The value of a variable, where it is declared.
pub open spec fn value_of(frames: Seq<FrameView>, name: Seq<char>) -> Option<ValueView> {
    match resolve(frames, name) {
        Some((f, k)) => Some(frames[f].variables[k].1),
        None => None,
    }
}

/// The frames with another value at one place.
pub open spec fn with_value(frames: Seq<FrameView>, f: int, k: int, value: ValueView) -> Seq<
    FrameView,
> {
    frames.update(
        f,
        FrameView {
            prefix: frames[f].prefix,
            variables: frames[f].variables.update(k, (frames[f].variables[k].0, value)),
            components: frames[f].components,
        },
    )
}

/// The frames with one more variable in the innermost.
pub open spec fn with_variable(frames: Seq<FrameView>, name: Seq<char>, value: ValueView) -> Seq<
    FrameView,
> {
    frames.update(
        frames.len() - 1,
        FrameView {
            prefix: frames.last().prefix,
            variables: frames.last().variables.push((name, value)),
            components: frames.last().components,
        },
    )
}

/// The frames with one more sub-component in the innermost.
pub open spec fn with_component(frames: Seq<FrameView>, name: Seq<char>) -> Seq<FrameView> {
    frames.update(
        frames.len() - 1,
        FrameView {
            prefix: frames.last().prefix,
            variables: frames.last().variables,
            components: frames.last().components.push(name),
        },
    )
}

/// The frames with a new innermost one, for the component of a name.
pub open spec fn with_frame(frames: Seq<FrameView>, name: Seq<char>) -> Seq<FrameView> {
    frames.push(
        FrameView {
            prefix: qualified(frames.last().prefix, name),
            variables: Seq::empty(),
            components: Seq::empty(),
        },
    )
}

pub proof fn lemma_slot_of(variables: Seq<(Seq<char>, ValueView)>, name: Seq<char>)
    ensures
        slot_of(variables, name) matches Some(k) ==> 0 <= k < variables.len() && variables[k].0
            == name,
    decreases variables.len(),
{
    if variables.len() > 0 {
        lemma_slot_of(variables.drop_last(), name);
    }
}

pub proof fn lemma_resolve(frames: Seq<FrameView>, name: Seq<char>)
    ensures
        resolve(frames, name) matches Some((f, k)) ==> 0 <= f < frames.len() && 0 <= k
            < frames[f].variables.len() && frames[f].variables[k].0 == name,
    decreases frames.len(),
{
    if frames.len() > 0 {
        lemma_slot_of(frames.last().variables, name);
        lemma_resolve(frames.drop_last(), name);
    }
}

/// The scopes at the circuit's root: one record, with the empty prefix and
/// neither variable nor sub-component.
pub open spec fn root() -> Seq<FrameView> {
    seq![FrameView { prefix: Seq::empty(), variables: Seq::empty(), components: Seq::empty() }]
}

/// Joins a prefix and a name.
pub fn join(prefix: &str, name: &str) -> (r: String)
    ensures
        r@ == qualified(prefix@, name@),
{
    if prefix.unicode_len() == 0 {
        String::from_str(name)
    } else {
        let mut r = String::from_str(prefix);
        r.append(".");
        r.append(name);
        proof {
            reveal_strlit(".");
            assert("."@ =~= seq!['.']);
        }
        r
    }
}

impl View for Frame {
    type V = FrameView;

    closed spec fn view(&self) -> FrameView {
        FrameView {
            prefix: self.prefix@,
            variables: Seq::new(
                self.variables@.len(),
                |i: int| (self.variables@[i].0@, self.variables@[i].1@),
            ),
            components: Seq::new(self.components@.len(), |i: int| self.components@[i]@),
        }
    }
}

impl Frame {
    /// Where the record declares a name.
    fn find(&self, name: &String) -> (r: Option<usize>)
        ensures
            match r {
                Some(k) => slot_of(self@.variables, name@) == Some(k as int) && k
                    < self.variables@.len(),
                None => slot_of(self@.variables, name@) is None,
            },
    {
        let ghost all = self@.variables;
        let mut k: usize = self.variables.len();
        proof {
            assert(all.take(k as int) =~= all);
        }
        while k > 0
            invariant
                k <= self.variables@.len(),
                all == self@.variables,
                slot_of(all, name@) == slot_of(all.take(k as int), name@),
            decreases k,
        {
            proof {
                assert(all.take(k as int).drop_last() =~= all.take(k - 1));
                assert(all.take(k as int).last() == all[k - 1]);
            }
            k = k - 1;
            if self.variables[k].0 == *name {
                return Some(k);
            }
        }
        proof {
            assert(all.take(0).len() == 0);
        }
        None
    }
}

impl View for Scope {
    type V = Seq<FrameView>;

    closed spec fn view(&self) -> Seq<FrameView> {
        Seq::new(self.frames@.len(), |i: int| self.frames@[i]@)
    }
}

impl Scope {
    /// The scope of the circuit's root: one record, with the empty prefix
    /// and no variable.
    pub fn new() -> (r: Scope)
        ensures
            r@ == root(),
    {
        let mut frames: Vec<Frame> = Vec::new();
        frames.push(
            Frame { prefix: String::new(), variables: Vec::new(), components: Vec::new() },
        );
        let r = Scope { frames };
        proof {
            assert(r@[0].variables =~= Seq::empty());
            assert(r@[0].components =~= Seq::empty());
            assert(r@ =~= root());
        }
        r
    }

    /// How many records are open.
    pub fn depth(&self) -> (n: usize)
        ensures
            n == self@.len(),
    {
        self.frames.len()
    }

    /// The full name of a signal of the innermost component.
    pub fn full_name(&self, name: &str) -> (r: String)
        requires
            self@.len() > 0,
        ensures
            r@ == qualified(self@.last().prefix, name@),
    {
        let top = &self.frames[self.frames.len() - 1];
        join(top.prefix.as_str(), name)
    }

    /// Opens the record of a sub-component.
    pub fn enter(&mut self, name: &str)
        requires
            old(self)@.len() > 0,
        ensures
            final(self)@ == with_frame(old(self)@, name@),
    {
        let prefix = self.full_name(name);
        self.frames.push(Frame { prefix, variables: Vec::new(), components: Vec::new() });
        proof {
            let last = self@.len() - 1;
            assert(self@[last].variables =~= Seq::empty());
            assert(self@[last].components =~= Seq::empty());
            assert forall|i: int| 0 <= i < old(self)@.len() implies self@[i] == old(self)@[i] by {
                assert(self.frames@[i] == old(self).frames@[i]);
            }
            assert(self@ =~= with_frame(old(self)@, name@));
        }
    }

    /// Closes the innermost record, which is that of a sub-component: the
    /// record of the root stays open.
    pub fn leave(&mut self)
        requires
            old(self)@.len() > 1,
        ensures
            final(self)@ == old(self)@.drop_last(),
    {
        self.frames.pop();
        proof {
            assert forall|i: int| 0 <= i < self@.len() implies self@[i] == old(self)@[i] by {
                assert(self.frames@[i] == old(self).frames@[i]);
            }
            assert(self@ =~= old(self)@.drop_last());
        }
    }

    /// Declares a variable in the innermost record. A name that the record
    /// declares already is refused with `AlreadyExists`.
    pub fn declare(&mut self, name: String, value: Value) -> (r: Result<(), Error>)
        requires
            old(self)@.len() > 0,
        ensures
            match r {
                Ok(_) => slot_of(old(self)@.last().variables, name@) is None && final(self)@
                    == with_variable(old(self)@, name@, value@),
                Err(e) => e is AlreadyExists && slot_of(old(self)@.last().variables, name@) is Some
                    && final(self)@ == old(self)@,
            },
    {
        let last: usize = self.frames.len() - 1;
        if self.frames[last].find(&name).is_some() {
            return Err(Error::AlreadyExists(name));
        }
        let ghost before = self.frames@;
        let ghost name_view = name@;
        let ghost value_view = value@;
        let mut frame = self.frames.pop().unwrap();
        frame.variables.push((name, value));
        proof {
            assert(frame@.variables =~= before[last as int]@.variables.push(
                (name_view, value_view),
            ));
        }
        self.frames.push(frame);
        proof {
            assert forall|i: int| 0 <= i < last implies self@[i] == old(self)@[i] by {
                assert(self.frames@[i] == old(self).frames@[i]);
            }
            assert(self@ =~= with_variable(old(self)@, name_view, value_view));
        }
        Ok(())
    }

    /// Whether the innermost record declares a sub-component of a name.
    pub fn has_component(&self, name: &str) -> (r: bool)
        requires
            self@.len() > 0,
        ensures
            r == self@.last().components.contains(name@),
    {
        let wanted = String::from_str(name);
        let top = &self.frames[self.frames.len() - 1];
        let ghost all = self@.last().components;
        let mut i: usize = 0;
        while i < top.components.len()
            invariant
                i <= top.components@.len(),
                wanted@ == name@,
                self@.len() > 0,
                all == self@.last().components,
                all == top@.components,
                all.len() == top.components@.len(),
                forall|k: int| 0 <= k < all.len() ==> all[k] == (#[trigger] top.components@[k])@,
                forall|k: int| 0 <= k < i ==> all[k] != name@,
            decreases top.components@.len() - i,
        {
            if top.components[i] == wanted {
                proof {
                    assert(all[i as int] == name@);
                }
                return true;
            }
            i = i + 1;
        }
        false
    }

    /// Declares a sub-component in the innermost record. A name that the
    /// record declares already is refused with `AlreadyExists`.
    pub fn declare_component(&mut self, name: String) -> (r: Result<(), Error>)
        requires
            old(self)@.len() > 0,
        ensures
            match r {
                Ok(_) => !old(self)@.last().components.contains(name@) && final(self)@
                    == with_component(old(self)@, name@),
                Err(e) => e is AlreadyExists && old(self)@.last().components.contains(name@)
                    && final(self)@ == old(self)@,
            },
    {
        if self.has_component(name.as_str()) {
            return Err(Error::AlreadyExists(name));
        }
        let last: usize = self.frames.len() - 1;
        let ghost before = self.frames@;
        let ghost name_view = name@;
        let mut frame = self.frames.pop().unwrap();
        frame.components.push(name);
        proof {
            assert(frame@.components =~= before[last as int]@.components.push(name_view));
            assert(frame@.variables =~= before[last as int]@.variables);
        }
        self.frames.push(frame);
        proof {
            assert forall|i: int| 0 <= i < last implies self@[i] == old(self)@[i] by {
                assert(self.frames@[i] == old(self).frames@[i]);
            }
            assert(self@ =~= with_component(old(self)@, name_view));
        }
        Ok(())
    }

    /// The value of a variable: that of the innermost record that declares it.
    pub fn lookup(&self, name: &str) -> (r: Option<Value>)
        ensures
            match r {
                Some(v) => value_of(self@, name@) == Some(v@),
                None => value_of(self@, name@) is None,
            },
    {
        let wanted = String::from_str(name);
        let ghost all = self@;
        let mut f: usize = self.frames.len();
        proof {
            assert(all.take(f as int) =~= all);
        }
        while f > 0
            invariant
                f <= self.frames@.len(),
                all == self@,
                wanted@ == name@,
                resolve(all, name@) == resolve(all.take(f as int), name@),
            decreases f,
        {
            proof {
                assert(all.take(f as int).drop_last() =~= all.take(f - 1));
                assert(all.take(f as int).last() == all[f - 1]);
            }
            f = f - 1;
            match self.frames[f].find(&wanted) {
                Some(k) => {
                    return Some(self.frames[f].variables[k].1.clone());
                },
                None => {},
            }
        }
        proof {
            assert(all.take(0).len() == 0);
        }
        None
    }

    /// Gives a declared variable another value. A name that no record
    /// declares is refused with `NotFound`.
    pub fn assign(&mut self, name: &str, value: Value) -> (r: Result<(), Error>)
        ensures
            match r {
                Ok(_) => resolve(old(self)@, name@) matches Some((f, k)) && final(self)@
                    == with_value(old(self)@, f, k, value@),
                Err(e) => e is NotFound && resolve(old(self)@, name@) is None && final(self)@
                    == old(self)@,
            },
    {
        let wanted = String::from_str(name);
        let ghost all = self@;
        let mut f: usize = self.frames.len();
        proof {
            assert(all.take(f as int) =~= all);
        }
        while f > 0
            invariant
                f <= self.frames@.len(),
                all == self@,
                self.frames@ == old(self).frames@,
                wanted@ == name@,
                resolve(all, name@) == resolve(all.take(f as int), name@),
            decreases f,
        {
            proof {
                assert(all.take(f as int).drop_last() =~= all.take(f - 1));
                assert(all.take(f as int).last() == all[f - 1]);
            }
            f = f - 1;
            match self.frames[f].find(&wanted) {
                Some(k) => {
                    let ghost before = self.frames@;
                    let ghost value_view = value@;
                    let slot_name = self.frames[f].variables[k].0.clone();
                    self.frames[f].variables[k] = (slot_name, value);
                    proof {
                        assert forall|i: int| 0 <= i < self@.len() && i != f implies self@[i]
                            == all[i] by {
                            assert(self.frames@[i] == before[i]);
                        }
                        assert(self@[f as int].variables =~= all[f as int].variables.update(
                            k as int,
                            (all[f as int].variables[k as int].0, value_view),
                        ));
                        assert(self@ =~= with_value(all, f as int, k as int, value_view));
                    }
                    return Ok(());
                },
                None => {},
            }
        }
        proof {
            assert(all.take(0).len() == 0);
        }
        Err(Error::NotFound(wanted))
    }
}

} // verus!
