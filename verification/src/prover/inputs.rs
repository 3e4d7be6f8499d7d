//! The inputs of a witness: a tree of values, as a document gives them,
//! flattened into values by full name. An element of an array is named by
//! its index in square brackets, a member of an object by its key behind a
//! dot.
use crate::algebra::field;
use crate::algebra::field::FS;
use crate::algebra::literal;
use crate::algebra::text;
use crate::algebra::value::Value;
use crate::algebra::value::ValueView;
use crate::prover::error::Error;
use crate::storage::types;
use crate::storage::types::SignalView;
use crate::storage::types::Signals;
use vstd::prelude::*;
use vstd::string::*;

verus! {

/// A tree of values.
#[derive(Debug)]
pub enum Json {
    Null,
    Bool(bool),
    /// A number, where it is an unsigned integer of 64 bits.
    Number(Option<u64>),
    Text(String),
    Array(Vec<Json>),
    Object(Vec<(String, Json)>),
}

/// The name of an element of an array.
pub open spec fn element_name(prefix: Seq<char>, index: nat) -> Seq<char> {
    prefix + seq!['['] + literal::decimal_text(index) + seq![']']
}

/// The name of a member of an object.
pub open spec fn member_name(prefix: Seq<char>, key: Seq<char>) -> Seq<char> {
    prefix + seq!['.'] + key
}

/// The named values of a tree, in the order of the tree; nothing where the
/// tree holds a value that is no input.
pub open spec fn flat(prefix: Seq<char>, v: Json) -> Option<Seq<(Seq<char>, FS)>>
    decreases v, 0nat,
{
    match v {
        Json::Array(values) => flat_elements(prefix, values, 0),
        Json::Object(members) => flat_members(prefix, members, 0),
        Json::Text(t) => if literal::is_literal(t@) {
            Some(seq![(prefix, FS::of(literal::literal_value(t@) % field::modulus()))])
        } else {
            None
        },
        Json::Number(Some(n)) => Some(seq![(prefix, FS::of(n as nat))]),
        _ => None,
    }
}

/// The named values of the elements of an array from an index on.
pub open spec fn flat_elements(prefix: Seq<char>, values: Vec<Json>, from: nat) -> Option<
    Seq<(Seq<char>, FS)>,
>
    decreases values, values@.len() - from,
{
    if from >= values@.len() {
        Some(Seq::empty())
    } else {
        match flat(element_name(prefix, from), values@[from as int]) {
            Some(first) => match flat_elements(prefix, values, from + 1) {
                Some(rest) => Some(first + rest),
                None => None,
            },
            None => None,
        }
    }
}

/// The named values of the members of an object from an index on.
pub open spec fn flat_members(prefix: Seq<char>, members: Vec<(String, Json)>, from: nat) -> Option<
    Seq<(Seq<char>, FS)>,
>
    decreases members, members@.len() - from,
{
    if from >= members@.len() {
        Some(Seq::empty())
    } else {
        match flat(member_name(prefix, members@[from as int].0@), members@[from as int].1) {
            Some(first) => match flat_members(prefix, members, from + 1) {
                Some(rest) => Some(first + rest),
                None => None,
            },
            None => None,
        }
    }
}

/// What named values hold.
pub open spec fn named(values: Seq<(String, FS)>) -> Seq<(Seq<char>, FS)> {
    Seq::new(values.len(), |i: int| (values[i].0@, values[i].1))
}

/// Appends the named values of a tree to a list. A text that is no
/// literal of the field is refused by the field, any other value that is no
/// input is refused as unexpected.
pub fn flatten(prefix: &str, v: &Json, result: &mut Vec<(String, FS)>) -> (r: Result<(), Error>)
    ensures
        match r {
            Ok(_) => flat(prefix@, *v) matches Some(values) && named(final(result)@) == named(
                old(result)@,
            ) + values,
            Err(_) => flat(prefix@, *v) is None,
        },
    decreases v,
{
    match v {
        Json::Array(values) => {
            let ghost start = named(result@);
            let mut i: usize = 0;
            proof {
                assert(start + Seq::<(Seq<char>, FS)>::empty() =~= start);
            }
            while i < values.len()
                invariant
                    i <= values@.len(),
                    *v == Json::Array(*values),
                    start == named(old(result)@),
                    flat(prefix@, *v) == flat_elements(prefix@, *values, 0),
                    flat_elements(prefix@, *values, 0) == (match flat_elements(
                        prefix@,
                        *values,
                        i as nat,
                    ) {
                        Some(rest) => Some((named(result@) + rest).skip(start.len() as int)),
                        None => None,
                    }),
                    named(result@).len() >= start.len(),
                    named(result@).take(start.len() as int) == start,
                decreases values@.len() - i,
            {
                let mut name = String::from_str(prefix);
                name.append("[");
                name.append(text::index_text(i).as_str());
                name.append("]");
                proof {
                    reveal_strlit("[");
                    reveal_strlit("]");
                    assert(name@ =~= element_name(prefix@, i as nat));
                }
                let ghost before = named(result@);
                match flatten(name.as_str(), &values[i], result) {
                    Ok(_) => {},
                    Err(e) => {
                        return Err(e);
                    },
                }
                proof {
                    let first = flat(name@, values@[i as int])->0;
                    match flat_elements(prefix@, *values, (i + 1) as nat) {
                        Some(rest) => {
                            assert((before + (first + rest)).skip(start.len() as int) =~= (named(
                                result@,
                            ) + rest).skip(start.len() as int));
                        },
                        None => {},
                    }
                    assert(named(result@).take(start.len() as int) =~= start);
                }
                i = i + 1;
            }
            proof {
                let all = named(result@);
                assert((all + Seq::<(Seq<char>, FS)>::empty()).skip(start.len() as int) =~= all.skip(
                    start.len() as int,
                ));
                assert(all =~= start + all.skip(start.len() as int));
            }
            Ok(())
        },
        Json::Object(members) => {
            let ghost start = named(result@);
            let mut i: usize = 0;
            proof {
                assert(start + Seq::<(Seq<char>, FS)>::empty() =~= start);
            }
            while i < members.len()
                invariant
                    i <= members@.len(),
                    *v == Json::Object(*members),
                    start == named(old(result)@),
                    flat(prefix@, *v) == flat_members(prefix@, *members, 0),
                    flat_members(prefix@, *members, 0) == (match flat_members(
                        prefix@,
                        *members,
                        i as nat,
                    ) {
                        Some(rest) => Some((named(result@) + rest).skip(start.len() as int)),
                        None => None,
                    }),
                    named(result@).len() >= start.len(),
                    named(result@).take(start.len() as int) == start,
                decreases members@.len() - i,
            {
                let mut name = String::from_str(prefix);
                name.append(".");
                name.append(members[i].0.as_str());
                proof {
                    reveal_strlit(".");
                    assert(name@ =~= member_name(prefix@, members@[i as int].0@));
                }
                let ghost before = named(result@);
                match flatten(name.as_str(), &members[i].1, result) {
                    Ok(_) => {},
                    Err(e) => {
                        return Err(e);
                    },
                }
                proof {
                    let first = flat(name@, members@[i as int].1)->0;
                    match flat_members(prefix@, *members, (i + 1) as nat) {
                        Some(rest) => {
                            assert((before + (first + rest)).skip(start.len() as int) =~= (named(
                                result@,
                            ) + rest).skip(start.len() as int));
                        },
                        None => {},
                    }
                    assert(named(result@).take(start.len() as int) =~= start);
                }
                i = i + 1;
            }
            proof {
                let all = named(result@);
                assert((all + Seq::<(Seq<char>, FS)>::empty()).skip(start.len() as int) =~= all.skip(
                    start.len() as int,
                ));
                assert(all =~= start + all.skip(start.len() as int));
            }
            Ok(())
        },
        Json::Text(t) => {
            match FS::parse(t.as_str()) {
                Ok(f) => {
                    proof {
                        f.lemma_of_view();
                    }
                    push_named(result, prefix, f);
                    Ok(())
                },
                Err(e) => Err(Error::Algebra(e)),
            }
        },
        Json::Number(Some(n)) => {
            let f = FS::from_u64(*n);
            proof {
                f.lemma_of_view();
            }
            push_named(result, prefix, f);
            Ok(())
        },
        Json::Number(None) => Err(Error::Unexpected(String::from_str("bad value"))),
        _ => Err(Error::Unexpected(String::from_str("cannot decode value"))),
    }
}

/// Appends one named value.
fn push_named(result: &mut Vec<(String, FS)>, name: &str, f: FS)
    ensures
        named(final(result)@) == named(old(result)@) + seq![(name@, f)],
{
    result.push((String::from_str(name), f));
    proof {
        assert(named(final(result)@) =~= named(old(result)@) + seq![(name@, f)]);
    }
}

/// The named values of a tree, each name under a prefix.
pub fn flatten_json(prefix: &str, json: &Json) -> (r: Result<Vec<(String, FS)>, Error>)
    ensures
        match r {
            Ok(values) => flat(prefix@, *json) == Some(named(values@)),
            Err(_) => flat(prefix@, *json) is None,
        },
{
    let mut result: Vec<(String, FS)> = Vec::new();
    match flatten(prefix, json, &mut result) {
        Ok(_) => {
            proof {
                assert(named(Seq::<(String, FS)>::empty()) + named(result@) =~= named(result@));
            }
            Ok(result)
        },
        Err(e) => Err(e),
    }
}

/// The public values of a witness: the full name and the number of each
/// signal of the circuit's public interface, in the order of the table.
/// Nothing where such a signal has no number for its value.
pub open spec fn public_values(table: Seq<SignalView>) -> Option<Seq<(Seq<char>, FS)>>
    decreases table.len(),
{
    if table.len() == 0 {
        Some(Seq::empty())
    } else {
        match public_values(table.drop_last()) {
            Some(values) => if types::is_public(table.last()) {
                match table.last().value {
                    Some(ValueView::FieldScalar(f)) => Some(values.push((table.last().full_name, f))),
                    _ => None,
                }
            } else {
                Some(values)
            },
            None => None,
        }
    }
}

/// Collects the public values of a witness from its signal table.
pub fn public_inputs<S: Signals>(signals: &S) -> (r: Result<
    Vec<(String, FS)>,
    crate::storage::error::Error,
>)
    requires
        signals.inv(),
    ensures
        match r {
            Ok(values) => public_values(signals.table()) == Some(named(values@)),
            Err(e) => (e is NotFound && public_values(signals.table()) is None)
                || !signals.infallible(),
        },
{
    let n: usize = match signals.len() {
        Ok(n) => n,
        Err(e) => {
            return Err(e);
        },
    };
    let ghost table = signals.table();
    let mut result: Vec<(String, FS)> = Vec::new();
    let mut i: usize = 0;
    proof {
        assert(named(result@) =~= Seq::empty());
    }
    while i < n
        invariant
            signals.inv(),
            table == signals.table(),
            n == table.len(),
            i <= n,
            public_values(table.take(i as int)) == Some(named(result@)),
        decreases n - i,
    {
        let found = match signals.get_by_id(i) {
            Ok(s) => s,
            Err(e) => {
                return Err(e);
            },
        };
        proof {
            assert(table.take(i + 1).drop_last() =~= table.take(i as int));
            assert(table.take(i + 1).last() == table[i as int]);
        }
        match found {
            Some(s) => {
                if s.is_public_input() {
                    match s.value {
                        Some(Value::FieldScalar(f)) => {
                            let ghost before = named(result@);
                            result.push((s.full_name, f));
                            proof {
                                assert(named(result@) =~= before.push((table[i as int].full_name, f)));
                            }
                        },
                        _ => {
                            proof {
                                lemma_public_values_missing(table, i + 1);
                            }
                            return Err(
                                crate::storage::error::Error::NotFound(
                                    String::from_str("public signal without a value"),
                                ),
                            );
                        },
                    }
                }
            },
            None => {},
        }
        i = i + 1;
    }
    proof {
        assert(table.take(i as int) =~= table);
    }
    Ok(result)
}

/// Where the first signals of a table lack a public value, the table does.
proof fn lemma_public_values_missing(table: Seq<SignalView>, n: int)
    requires
        0 <= n <= table.len(),
        public_values(table.take(n)) is None,
    ensures
        public_values(table) is None,
    decreases table.len() - n,
{
    if n < table.len() {
        assert(table.take(n + 1).drop_last() =~= table.take(n));
        lemma_public_values_missing(table, n + 1);
    } else {
        assert(table.take(n) =~= table);
    }
}

} // verus!
