//! Why the two modes fit together: the equation that a constrained
//! assignment emits holds under the value that the same assignment gives
//! its target when the witness is computed, and an equation that holds
//! goes on holding while the signals that it names keep their numbers.
use crate::algebra::field;
use crate::algebra::field::FS;
use crate::algebra::lc;
use crate::algebra::lc::SignalId;
use crate::algebra::modular;
use crate::algebra::qeq::QeqView;
use crate::algebra::substitute;
use crate::algebra::value::ValueView;
use crate::evaluator::ast::Expression;
use crate::evaluator::ast::Target;
use crate::evaluator::check;
use crate::evaluator::scope;
use crate::evaluator::semantics;
use crate::evaluator::semantics::Form;
use crate::evaluator::semantics::Mode;
use crate::evaluator::semantics::State;
use crate::storage::types;
use crate::storage::types::SignalView;
use vstd::prelude::*;

verus! {

/// The signal `one` stands first in the table, with the number 1.
pub open spec fn one_in_place(table: Seq<SignalView>) -> bool {
    substitute::scalar_of(table, lc::ONE) matches Some(f) && f@ == 1
}

/// Two tables give the same number to every signal that the terms name.
pub open spec fn agree_on(
    terms: Seq<(SignalId, FS)>,
    before: Seq<SignalView>,
    after: Seq<SignalView>,
) -> bool {
    forall|k: int|
        0 <= k < terms.len() ==> substitute::scalar_of(before, (#[trigger] terms[k]).0)
            == substitute::scalar_of(after, terms[k].0)
}

/// The weighted sum depends on the numbers of the named signals only.
pub proof fn lemma_weighted_sum_agrees(
    terms: Seq<(SignalId, FS)>,
    before: Seq<SignalView>,
    after: Seq<SignalView>,
)
    requires
        agree_on(terms, before, after),
    ensures
        substitute::weighted_sum(terms, before) == substitute::weighted_sum(terms, after),
        substitute::assigned(terms, before) == substitute::assigned(terms, after),
    decreases terms.len(),
{
    if terms.len() > 0 {
        let rest = terms.drop_last();
        assert forall|k: int| 0 <= k < rest.len() implies substitute::scalar_of(
            before,
            (#[trigger] rest[k]).0,
        ) == substitute::scalar_of(after, rest[k].0) by {
            assert(rest[k] == terms[k]);
        }
        lemma_weighted_sum_agrees(rest, before, after);
        assert(substitute::scalar_of(before, terms[terms.len() - 1].0) == substitute::scalar_of(
            after,
            terms[terms.len() - 1].0,
        ));
    }
    if substitute::assigned(terms, before) {
        assert forall|k: int| 0 <= k < terms.len() implies substitute::scalar_of(
            after,
            (#[trigger] terms[k]).0,
        ) is Some by {}
    }
    if substitute::assigned(terms, after) {
        assert forall|k: int| 0 <= k < terms.len() implies substitute::scalar_of(
            before,
            (#[trigger] terms[k]).0,
        ) is Some by {}
    }
}

/// An equation that holds goes on holding while the signals that it names
/// keep their numbers, whatever else the table takes.
pub proof fn lemma_satisfied_stays(q: QeqView, before: Seq<SignalView>, after: Seq<SignalView>)
    requires
        check::satisfied(q, before),
        agree_on(q.a, before, after),
        agree_on(q.b, before, after),
        agree_on(q.c, before, after),
    ensures
        check::satisfied(q, after),
{
    lemma_weighted_sum_agrees(q.a, before, after);
    lemma_weighted_sum_agrees(q.b, before, after);
    lemma_weighted_sum_agrees(q.c, before, after);
}

/// The number of a combination written in another way, under a table that
/// gives the same numbers to its signals.
proof fn lemma_number_carries(
    terms: Seq<(SignalId, FS)>,
    before: Seq<SignalView>,
    form: Seq<(SignalId, FS)>,
    after: Seq<SignalView>,
)
    requires
        before.len() <= usize::MAX,
        after.len() <= usize::MAX,
        before.len() <= after.len(),
        substitute::assigned(terms, before),
        lc::canonical(form),
        lc::same_combination(form, terms),
        forall|id: SignalId|
            lc::coefficient(terms, id) != 0 ==> substitute::scalar_of(after, id)
                == substitute::scalar_of(before, id),
    ensures
        substitute::assigned(form, after),
        substitute::weighted_sum(form, after) == substitute::weighted_sum(terms, before),
{
    assert forall|k: int| 0 <= k < form.len() implies substitute::scalar_of(
        after,
        (#[trigger] form[k]).0,
    ) is Some by {
        lc::lemma_coefficient_at(form, k);
        lc::lemma_occurs(terms, form[k].0);
        let j = choose|j: int| 0 <= j < terms.len() && (#[trigger] terms[j]).0 == form[k].0;
        assert(substitute::scalar_of(before, terms[j].0) is Some);
    }
    substitute::lemma_weighted_sum_is_dot(form, after);
    substitute::lemma_weighted_sum_is_dot(terms, before);
    assert forall|id: SignalId| id >= before.len() implies lc::coefficient(terms, id) == 0 by {
        if lc::coefficient(terms, id) != 0 {
            lc::lemma_occurs(terms, id);
            let j = choose|j: int| 0 <= j < terms.len() && (#[trigger] terms[j]).0 == id;
            assert(substitute::scalar_of(before, terms[j].0) is Some);
        }
    }
    substitute::lemma_dot_same(form, after, terms, before, before.len());
    lemma_dot_beyond(form, after, before.len(), after.len());
}

/// Signals without a coefficient add nothing to the sum.
proof fn lemma_dot_beyond(terms: Seq<(SignalId, FS)>, table: Seq<SignalView>, from: nat, n: nat)
    requires
        from <= n <= usize::MAX + 1,
        forall|id: SignalId| id >= from ==> lc::coefficient(terms, id) == 0,
    ensures
        substitute::dot(terms, table, n) == substitute::dot(terms, table, from),
    decreases n,
{
    if from < n {
        lemma_dot_beyond(terms, table, from, (n - 1) as nat);
        assert(lc::coefficient(terms, (n - 1) as usize) == 0);
        assert(0 * substitute::number_at(table, (n - 1) as usize) == 0) by (nonlinear_arith);
        lc::lemma_coefficient_bound(terms, 0);
        substitute::lemma_dot_bound(terms, table, (n - 1) as nat);
    }
}

/// The negated symbol of a signal comes to the negated number of the signal.
proof fn lemma_negated_symbol(t: SignalId, table: Seq<SignalView>)
    requires
        table.len() <= usize::MAX,
        substitute::scalar_of(table, t) is Some,
    ensures
        substitute::assigned(lc::negation(semantics::symbol(t)), table),
        substitute::weighted_sum(lc::negation(semantics::symbol(t)), table) == (
        substitute::number_at(table, t) % field::modulus() * (field::modulus() - 1))
            % field::modulus() as int,
{
    let s = semantics::symbol(t);
    let k = (field::modulus() - 1) as nat;
    let neg = lc::negation(s);
    FS::lemma_of(1);
    lc::lemma_product_defined(s, k);
    assert forall|id: SignalId| lc::coefficient(s, id) == (if id == t {
        1nat
    } else {
        0nat
    }) by {
        lc::lemma_coefficient_single((t, FS::of(1)), id);
    }
    assert forall|j: int| 0 <= j < neg.len() implies substitute::scalar_of(
        table,
        (#[trigger] neg[j]).0,
    ) is Some by {
        lc::lemma_coefficient_at(neg, j);
        if neg[j].0 != t {
            assert(lc::coefficient(s, neg[j].0) == 0);
            assert(0 * k == 0) by (nonlinear_arith);
        }
    }
    assert(substitute::assigned(s, table)) by {
        assert forall|j: int| 0 <= j < s.len() implies substitute::scalar_of(
            table,
            (#[trigger] s[j]).0,
        ) is Some by {}
    }
    substitute::lemma_weighted_sum_is_dot(neg, table);
    substitute::lemma_weighted_sum_is_dot(s, table);
    substitute::lemma_dot_scaled(s, k, neg, table, table.len());
    assert(s.drop_last() =~= Seq::empty());
    assert(substitute::weighted_sum(s, table) == (0 + 1 * substitute::number_at(table, t))
        % field::modulus()) by {
        reveal_with_fuel(substitute::weighted_sum, 2);
    }
}

/// A product under a table in which its target, or the signal that stands
/// for it, has the product of the factors' numbers: the equation holds.
proof fn lemma_product_holds(
    a: Seq<(SignalId, FS)>,
    b: Seq<(SignalId, FS)>,
    t: SignalId,
    before: Seq<SignalView>,
    after: Seq<SignalView>,
)
    requires
        before.len() <= after.len() <= usize::MAX,
        substitute::assigned(a, before),
        substitute::assigned(b, before),
        lc::coefficient(a, t) == 0,
        lc::coefficient(b, t) == 0,
        forall|id: SignalId|
            id != t ==> substitute::scalar_of(after, id) == substitute::scalar_of(before, id),
        substitute::scalar_of(after, t) matches Some(n) && n@ == (substitute::weighted_sum(a, before)
            * substitute::weighted_sum(b, before)) % field::modulus(),
    ensures
        check::satisfied(
            QeqView { a: lc::canon(a), b: lc::canon(b), c: lc::negation(semantics::symbol(t)) },
            after,
        ),
{
    let m = field::modulus() as int;
    lc::lemma_canon_defined(a);
    lc::lemma_canon_defined(b);
    lemma_number_carries(a, before, lc::canon(a), after);
    lemma_number_carries(b, before, lc::canon(b), after);
    lemma_negated_symbol(t, after);
    let x = substitute::weighted_sum(a, before) as int;
    let y = substitute::weighted_sum(b, before) as int;
    modular::lemma_cancel(x * y, m);
    vstd::arithmetic::div_mod::lemma_mod_twice(x * y, m);
    vstd::arithmetic::div_mod::lemma_add_mod_noop_right(
        x * y,
        ((x * y) % m) % m * (m - 1),
        m,
    );
}

/// A constrained assignment of a product is sound: under the table in which
/// the target has taken the product of the factors' numbers, the equation
/// emitted for the assignment holds. The target must not stand in the
/// factors.
pub proof fn lemma_product_assignment_sound(
    a: Seq<(SignalId, FS)>,
    b: Seq<(SignalId, FS)>,
    t: SignalId,
    table: Seq<SignalView>,
)
    requires
        table.len() <= usize::MAX,
        t < table.len(),
        semantics::form_number(Form::Product(a, b), table) is Ok,
        lc::coefficient(a, t) == 0,
        lc::coefficient(b, t) == 0,
    ensures
        check::satisfied(
            semantics::equation(Form::Product(a, b), semantics::symbol(t)),
            table.update(
                t as int,
                types::with_value(
                    table[t as int],
                    ValueView::FieldScalar(semantics::form_number(Form::Product(a, b), table)->Ok_0),
                ),
            ),
        ),
{
    let n = semantics::form_number(Form::Product(a, b), table)->Ok_0;
    let after = table.update(t as int, types::with_value(table[t as int], ValueView::FieldScalar(n)));
    FS::lemma_of(
        (substitute::weighted_sum(a, table) * substitute::weighted_sum(b, table)) % field::modulus(),
    );
    FS::lemma_of(substitute::weighted_sum(a, table));
    FS::lemma_of(substitute::weighted_sum(b, table));
    lemma_product_holds(a, b, t, table, after);
}

/// A product that became an internal signal is sound: under the table in
/// which the new signal has the product of the factors' numbers, the
/// equation that defines the signal holds.
pub proof fn lemma_materialize_sound(
    a: Seq<(SignalId, FS)>,
    b: Seq<(SignalId, FS)>,
    constraints: semantics::State,
    witness: semantics::State,
)
    requires
        witness.table.len() < usize::MAX,
        constraints.table.len() == witness.table.len(),
        semantics::materialize(semantics::Mode::GenConstraints, a, b, constraints) is Ok,
        semantics::materialize(semantics::Mode::GenWitness, a, b, witness) is Ok,
    ensures
        check::satisfied(
            semantics::materialize(
                semantics::Mode::GenConstraints,
                a,
                b,
                constraints,
            )->Ok_0.1.list.last(),
            semantics::materialize(semantics::Mode::GenWitness, a, b, witness)->Ok_0.1.table,
        ),
{
    let table = witness.table;
    let t = table.len() as usize;
    let after = semantics::materialize(semantics::Mode::GenWitness, a, b, witness)->Ok_0.1.table;
    FS::lemma_of(
        (substitute::weighted_sum(a, table) * substitute::weighted_sum(b, table)) % field::modulus(),
    );
    FS::lemma_of(substitute::weighted_sum(a, table));
    FS::lemma_of(substitute::weighted_sum(b, table));
    assert forall|k: int| 0 <= k < a.len() implies (#[trigger] a[k]).0 != t by {
        assert(substitute::scalar_of(table, a[k].0) is Some);
    }
    assert forall|k: int| 0 <= k < b.len() implies (#[trigger] b[k]).0 != t by {
        assert(substitute::scalar_of(table, b[k].0) is Some);
    }
    lc::lemma_coefficient_absent(a, t);
    lc::lemma_coefficient_absent(b, t);
    lemma_product_holds(a, b, t, table, after);
}

/// A constrained assignment of a value of degree one at most is sound:
/// under the table in which the target has taken the value's number, the
/// equation emitted for the assignment holds. The signal `one` must be in
/// its place, and the target must be another signal that does not stand in
/// the value.
#[verifier::rlimit(60)]
pub proof fn lemma_linear_assignment_sound(v: ValueView, t: SignalId, table: Seq<SignalView>)
    requires
        table.len() <= usize::MAX,
        t < table.len(),
        t != lc::ONE,
        one_in_place(table),
        semantics::form_number(Form::Linear(v), table) is Ok,
        lc::coefficient(v.terms(), t) == 0,
    ensures
        check::satisfied(
            semantics::equation(Form::Linear(v), semantics::symbol(t)),
            table.update(
                t as int,
                types::with_value(
                    table[t as int],
                    ValueView::FieldScalar(semantics::form_number(Form::Linear(v), table)->Ok_0),
                ),
            ),
        ),
{
    let m = field::modulus() as int;
    let n = semantics::form_number(Form::Linear(v), table)->Ok_0;
    let after = table.update(t as int, types::with_value(table[t as int], ValueView::FieldScalar(n)));
    let terms = v.terms();
    let one = semantics::symbol(lc::ONE);
    let neg = lc::negation(semantics::symbol(t));
    let diff = lc::difference(terms, semantics::symbol(t));
    FS::lemma_of(1);
    // the value's terms under the table before
    assert(substitute::assigned(terms, table)) by {
        match v {
            ValueView::FieldScalar(f) => {
                assert forall|k: int| 0 <= k < terms.len() implies substitute::scalar_of(
                    table,
                    (#[trigger] terms[k]).0,
                ) is Some by {}
            },
            _ => {},
        }
    }
    assert(substitute::weighted_sum(terms, table) == n@ % field::modulus()) by {
        match v {
            ValueView::FieldScalar(f) => {
                assert(terms.drop_last() =~= Seq::empty());
                reveal_with_fuel(substitute::weighted_sum, 2);
                assert(f@ * 1 == f@) by (nonlinear_arith);
            },
            _ => {
                FS::lemma_of(substitute::weighted_sum(terms, table));
                substitute::lemma_weighted_sum_bound(terms, table);
                vstd::arithmetic::div_mod::lemma_small_mod(
                    substitute::weighted_sum(terms, table),
                    field::modulus(),
                );
            },
        }
    }
    // one
    assert(substitute::assigned(one, after) && substitute::weighted_sum(one, after) == 1) by {
        assert(one.drop_last() =~= Seq::empty());
        assert(substitute::scalar_of(after, lc::ONE) == substitute::scalar_of(table, lc::ONE));
        reveal_with_fuel(substitute::weighted_sum, 2);
        assert forall|k: int| 0 <= k < one.len() implies substitute::scalar_of(
            after,
            (#[trigger] one[k]).0,
        ) is Some by {}
    }
    // the difference
    lemma_negated_symbol(t, after);
    lc::lemma_product_defined(semantics::symbol(t), (field::modulus() - 1) as nat);
    lc::lemma_sum_defined(terms, neg);
    assert forall|k: int| 0 <= k < diff.len() implies substitute::scalar_of(
        after,
        (#[trigger] diff[k]).0,
    ) is Some by {
        lc::lemma_coefficient_at(diff, k);
        let id = diff[k].0;
        if id != t {
            if lc::coefficient(terms, id) == 0 {
                lc::lemma_coefficient_single((t, FS::of(1)), id);
                assert(0 * (field::modulus() - 1) == 0) by (nonlinear_arith);
                assert(lc::coefficient(neg, id) == 0);
            }
            lc::lemma_occurs(terms, id);
            let j = choose|j: int| 0 <= j < terms.len() && (#[trigger] terms[j]).0 == id;
            assert(substitute::scalar_of(table, terms[j].0) is Some);
        }
    }
    substitute::lemma_weighted_sum_is_dot(diff, after);
    substitute::lemma_dot_sum(terms, neg, diff, after, after.len());
    substitute::lemma_weighted_sum_is_dot(neg, after);
    substitute::lemma_weighted_sum_is_dot(terms, table);
    assert(lc::same_combination(terms, terms));
    substitute::lemma_dot_same(terms, after, terms, table, table.len());
    modular::lemma_cancel(n@ as int, m);
    vstd::arithmetic::div_mod::lemma_mod_twice(n@ as int, m);
    vstd::arithmetic::div_mod::lemma_add_mod_noop(
        n@ as int,
        (n@ as int % m) * (m - 1),
        m,
    );
    let d = substitute::weighted_sum(diff, after);
    assert(d == 0);
    assert(1 * d + 0 == 0) by (nonlinear_arith)
        requires
            d == 0,
    ;
    assert(substitute::weighted_sum(Seq::<(SignalId, FS)>::empty(), after) == 0);
}

/// Two tables hold the same signals: the same identifiers, names and types.
pub open spec fn aligned(a: Seq<SignalView>, b: Seq<SignalView>) -> bool {
    &&& a.len() == b.len()
    &&& forall|i: int|
        0 <= i < a.len() ==> (#[trigger] a[i]).id == b[i].id && a[i].full_name == b[i].full_name
            && a[i].xtype == b[i].xtype
}

/// A table as the backends keep it.
pub open spec fn well_formed(table: Seq<SignalView>) -> bool {
    types::dense(table) && types::distinct_names(table) && table.len() <= usize::MAX
}

/// The state of a run that emits constraints and the state of a run that
/// computes the witness have come equally far: the same signals, and the
/// same scopes.
pub open spec fn agree(c: State, w: State) -> bool {
    &&& aligned(c.table, w.table)
    &&& well_formed(c.table)
    &&& well_formed(w.table)
    &&& c.frames == w.frames
}

/// A table keeps the numbers of the signals of an earlier table.
pub open spec fn keeps(before: Seq<SignalView>, after: Seq<SignalView>) -> bool {
    &&& before.len() <= after.len()
    &&& forall|id: SignalId|
        id < before.len() ==> substitute::scalar_of(after, id) == substitute::scalar_of(before, id)
}

/// The equations from an index on hold under a table.
pub open spec fn hold_from(list: Seq<QeqView>, from: int, table: Seq<SignalView>) -> bool {
    forall|i: int| from <= i < list.len() ==> check::satisfied(#[trigger] list[i], table)
}

/// A list of equations goes on from another.
pub open spec fn extends(before: Seq<QeqView>, after: Seq<QeqView>) -> bool {
    &&& before.len() <= after.len()
    &&& forall|i: int| 0 <= i < before.len() ==> #[trigger] after[i] == before[i]
}

/// Aligned tables find the same signal under a name.
pub proof fn lemma_find_aligned(a: Seq<SignalView>, b: Seq<SignalView>, name: Seq<char>)
    requires
        aligned(a, b),
        types::distinct_names(a),
        types::distinct_names(b),
    ensures
        types::has_name(a, name) == types::has_name(b, name),
        types::has_name(a, name) ==> types::index_of(a, name) == types::index_of(b, name),
        semantics::find(a, name) is Some == semantics::find(b, name) is Some,
        semantics::find(a, name) matches Some(s) ==> semantics::find(b, name)->0.id == s.id
            && semantics::find(b, name)->0.xtype == s.xtype,
{
    if types::has_name(a, name) {
        let i = types::index_of(a, name);
        assert(b[i].full_name == name);
        types::lemma_index_of(b, i);
    }
    if types::has_name(b, name) {
        let i = types::index_of(b, name);
        assert(a[i].full_name == name);
        types::lemma_index_of(a, i);
    }
}

/// Equations that hold go on holding under a table that keeps the numbers.
pub proof fn lemma_hold_stays(
    list: Seq<QeqView>,
    from: int,
    before: Seq<SignalView>,
    after: Seq<SignalView>,
)
    requires
        hold_from(list, from, before),
        keeps(before, after),
    ensures
        hold_from(list, from, after),
{
    assert forall|i: int| from <= i < list.len() implies check::satisfied(
        #[trigger] list[i],
        after,
    ) by {
        let q = list[i];
        assert(check::satisfied(q, before));
        lemma_kept_agrees(q.a, before, after);
        lemma_kept_agrees(q.b, before, after);
        lemma_kept_agrees(q.c, before, after);
        lemma_satisfied_stays(q, before, after);
    }
}

/// A table that keeps the numbers agrees on the terms that have numbers.
proof fn lemma_kept_agrees(
    terms: Seq<(SignalId, FS)>,
    before: Seq<SignalView>,
    after: Seq<SignalView>,
)
    requires
        substitute::assigned(terms, before),
        keeps(before, after),
    ensures
        agree_on(terms, before, after),
{
    assert forall|k: int| 0 <= k < terms.len() implies substitute::scalar_of(
        before,
        (#[trigger] terms[k]).0,
    ) == substitute::scalar_of(after, terms[k].0) by {
        assert(substitute::scalar_of(before, terms[k].0) is Some);
    }
}

/// What the two modes make of a product that becomes an internal signal.
proof fn lemma_materialize_agrees(
    a: Seq<(SignalId, FS)>,
    b: Seq<(SignalId, FS)>,
    c: State,
    w: State,
)
    requires
        agree(c, w),
        c.table.len() < usize::MAX,
        semantics::materialize(Mode::GenConstraints, a, b, c) is Ok,
        semantics::materialize(Mode::GenWitness, a, b, w) is Ok,
    ensures
        ({
            let (vc, c1) = semantics::materialize(Mode::GenConstraints, a, b, c)->Ok_0;
            let (vw, w1) = semantics::materialize(Mode::GenWitness, a, b, w)->Ok_0;
            &&& vc == vw
            &&& agree(c1, w1)
            &&& c1.frames == c.frames
            &&& keeps(w.table, w1.table)
            &&& w1.list == w.list
            &&& extends(c.list, c1.list)
            &&& hold_from(c1.list, c.list.len() as int, w1.table)
        }),
{
    let (vc, c1) = semantics::materialize(Mode::GenConstraints, a, b, c)->Ok_0;
    let (vw, w1) = semantics::materialize(Mode::GenWitness, a, b, w)->Ok_0;
    let id = c.table.len() as usize;
    let name = scope::qualified(c.prefix(), semantics::internal_name(id));
    lemma_materialize_sound(a, b, c, w);
    assert(types::dense(c1.table)) by {
        assert forall|i: int| 0 <= i < c1.table.len() implies (#[trigger] c1.table[i]).id == i by {
            if i < c.table.len() {
                assert(c1.table[i] == c.table[i]);
            }
        }
    }
    assert(types::dense(w1.table)) by {
        assert forall|i: int| 0 <= i < w1.table.len() implies (#[trigger] w1.table[i]).id == i by {
            if i < w.table.len() {
                assert(w1.table[i] == w.table[i]);
            }
        }
    }
    assert(types::distinct_names(c1.table)) by {
        assert forall|i: int, j: int| 0 <= i < j < c1.table.len() implies (
        #[trigger] c1.table[i]).full_name != (#[trigger] c1.table[j]).full_name by {
            assert(c1.table[i] == c.table[i]);
            if j < c.table.len() {
                assert(c1.table[j] == c.table[j]);
            }
        }
    }
    assert(types::distinct_names(w1.table)) by {
        assert forall|i: int, j: int| 0 <= i < j < w1.table.len() implies (
        #[trigger] w1.table[i]).full_name != (#[trigger] w1.table[j]).full_name by {
            assert(w1.table[i] == w.table[i]);
            if j < w.table.len() {
                assert(w1.table[j] == w.table[j]);
            }
        }
    }
    assert(aligned(c1.table, w1.table)) by {
        assert forall|i: int| 0 <= i < c1.table.len() implies (#[trigger] c1.table[i]).id
            == w1.table[i].id && c1.table[i].full_name == w1.table[i].full_name
            && c1.table[i].xtype == w1.table[i].xtype by {
            if i < c.table.len() {
                assert(c1.table[i] == c.table[i]);
                assert(w1.table[i] == w.table[i]);
            }
        }
    }
    assert(keeps(w.table, w1.table)) by {
        assert forall|id: SignalId| id < w.table.len() implies substitute::scalar_of(w1.table, id)
            == substitute::scalar_of(w.table, id) by {
            assert(w1.table[id as int] == w.table[id as int]);
        }
    }
    assert(c1.list.last() == c1.list[c.list.len() as int]);
}

/// The two modes have evaluated an expression alike: they found the same
/// value and have come equally far again; the witness has kept the numbers
/// it had and has no equation more; the equations emitted since hold under
/// the witness.
pub open spec fn evaluated_alike(e: Expression, c: State, w: State) -> bool {
    let (vc, c1) = semantics::evaluate(Mode::GenConstraints, e, c)->Ok_0;
    let (vw, w1) = semantics::evaluate(Mode::GenWitness, e, w)->Ok_0;
    &&& vc == vw
    &&& agree(c1, w1)
    &&& c1.frames == c.frames
    &&& keeps(w.table, w1.table)
    &&& w1.list == w.list
    &&& extends(c.list, c1.list)
    &&& hold_from(c1.list, c.list.len() as int, w1.table)
}

/// Both modes evaluate the expression, and the signals that they need fit
/// the identifiers.
pub open spec fn both_evaluate(e: Expression, c: State, w: State) -> bool {
    &&& semantics::evaluate(Mode::GenConstraints, e, c) is Ok
    &&& semantics::evaluate(Mode::GenWitness, e, w) matches Ok((v, w1)) && w1.table.len()
        <= usize::MAX
}

/// The evaluation of an expression takes no signal from the table.
pub proof fn lemma_evaluate_grows(mode: Mode, e: Expression, st: State)
    ensures
        semantics::evaluate(mode, e, st) matches Ok((v, st1)) ==> st.table.len()
            <= st1.table.len(),
    decreases e,
{
    match e {
        Expression::Neg(x) => {
            lemma_evaluate_grows(mode, *x, st);
        },
        Expression::Add(l, r) => {
            lemma_evaluate_grows(mode, *l, st);
            if let Ok((x, st1)) = semantics::evaluate(mode, *l, st) {
                lemma_evaluate_grows(mode, *r, st1);
            }
        },
        Expression::Sub(l, r) => {
            lemma_evaluate_grows(mode, *l, st);
            if let Ok((x, st1)) = semantics::evaluate(mode, *l, st) {
                lemma_evaluate_grows(mode, *r, st1);
            }
        },
        Expression::Mul(l, r) => {
            lemma_evaluate_grows(mode, *l, st);
            if let Ok((x, st1)) = semantics::evaluate(mode, *l, st) {
                lemma_evaluate_grows(mode, *r, st1);
            }
        },
        _ => {},
    }
}

proof fn lemma_leaf_alike(e: Expression, c: State, w: State)
    requires
        agree(c, w),
        both_evaluate(e, c, w),
        e is Number || e is Variable || e is Pin,
    ensures
        evaluated_alike(e, c, w),
{
    match e {
        Expression::Variable(name) => {
            lemma_find_aligned(c.table, w.table, scope::qualified(c.prefix(), name@));
        },
        Expression::Pin(component, signal) => {
            let path = scope::qualified(c.prefix(), component@);
            lemma_find_aligned(c.table, w.table, scope::qualified(path, signal@));
        },
        _ => {},
    }
}

/// Two expressions evaluated alike, one after the other, leave the witness
/// with the numbers it had and the equations of both holding.
proof fn lemma_pair_alike(l: Expression, r: Expression, c: State, w: State)
    requires
        agree(c, w),
        both_evaluate(l, c, w),
        evaluated_alike(l, c, w),
        both_evaluate(
            r,
            semantics::evaluate(Mode::GenConstraints, l, c)->Ok_0.1,
            semantics::evaluate(Mode::GenWitness, l, w)->Ok_0.1,
        ),
        evaluated_alike(
            r,
            semantics::evaluate(Mode::GenConstraints, l, c)->Ok_0.1,
            semantics::evaluate(Mode::GenWitness, l, w)->Ok_0.1,
        ),
    ensures
        ({
            let c1 = semantics::evaluate(Mode::GenConstraints, l, c)->Ok_0.1;
            let w1 = semantics::evaluate(Mode::GenWitness, l, w)->Ok_0.1;
            let c2 = semantics::evaluate(Mode::GenConstraints, r, c1)->Ok_0.1;
            let w2 = semantics::evaluate(Mode::GenWitness, r, w1)->Ok_0.1;
            &&& agree(c2, w2)
            &&& c2.frames == c.frames
            &&& keeps(w.table, w2.table)
            &&& w2.list == w.list
            &&& extends(c.list, c2.list)
            &&& hold_from(c2.list, c.list.len() as int, w2.table)
        }),
{
    let c1 = semantics::evaluate(Mode::GenConstraints, l, c)->Ok_0.1;
    let w1 = semantics::evaluate(Mode::GenWitness, l, w)->Ok_0.1;
    let c2 = semantics::evaluate(Mode::GenConstraints, r, c1)->Ok_0.1;
    let w2 = semantics::evaluate(Mode::GenWitness, r, w1)->Ok_0.1;
    lemma_hold_joins(c.list, c1.list, c2.list, w1.table, w2.table);
}

/// Equations emitted in two steps: those of the first step hold under the
/// table of the first step, those of the second under the table of the
/// second, which keeps the numbers of the first. Then all hold under the
/// table of the second.
proof fn lemma_hold_joins(
    list: Seq<QeqView>,
    list1: Seq<QeqView>,
    list2: Seq<QeqView>,
    table1: Seq<SignalView>,
    table2: Seq<SignalView>,
)
    requires
        extends(list, list1),
        extends(list1, list2),
        hold_from(list1, list.len() as int, table1),
        hold_from(list2, list1.len() as int, table2),
        keeps(table1, table2),
    ensures
        extends(list, list2),
        hold_from(list2, list.len() as int, table2),
{
    lemma_hold_stays(list1, list.len() as int, table1, table2);
    assert forall|i: int| list.len() <= i < list2.len() implies check::satisfied(
        #[trigger] list2[i],
        table2,
    ) by {
        if i < list1.len() {
            assert(list2[i] == list1[i]);
            assert(check::satisfied(list1[i], table2));
        }
    }
    assert forall|i: int| 0 <= i < list.len() implies #[trigger] list2[i] == list[i] by {
        assert(list2[i] == list1[i]);
    }
}

/// Keeping the numbers goes on through two steps.
proof fn lemma_keeps_joins(a: Seq<SignalView>, b: Seq<SignalView>, c: Seq<SignalView>)
    requires
        keeps(a, b),
        keeps(b, c),
    ensures
        keeps(a, c),
{
}

/// A product alike: where the factors have been evaluated alike, the
/// product is, whether it is a value of degree one or an internal signal.
proof fn lemma_product_alike(l: Expression, r: Expression, c: State, w: State)
    requires
        agree(c, w),
        both_evaluate(Expression::Mul(Box::new(l), Box::new(r)), c, w),
        both_evaluate(l, c, w),
        evaluated_alike(l, c, w),
        both_evaluate(
            r,
            semantics::evaluate(Mode::GenConstraints, l, c)->Ok_0.1,
            semantics::evaluate(Mode::GenWitness, l, w)->Ok_0.1,
        ),
        evaluated_alike(
            r,
            semantics::evaluate(Mode::GenConstraints, l, c)->Ok_0.1,
            semantics::evaluate(Mode::GenWitness, l, w)->Ok_0.1,
        ),
    ensures
        evaluated_alike(Expression::Mul(Box::new(l), Box::new(r)), c, w),
{
    let e = Expression::Mul(Box::new(l), Box::new(r));
    let (x, c1) = semantics::evaluate(Mode::GenConstraints, l, c)->Ok_0;
    let w1 = semantics::evaluate(Mode::GenWitness, l, w)->Ok_0.1;
    let (y, c2) = semantics::evaluate(Mode::GenConstraints, r, c1)->Ok_0;
    let w2 = semantics::evaluate(Mode::GenWitness, r, w1)->Ok_0.1;
    lemma_pair_alike(l, r, c, w);
    if x.product(y) is None {
        lemma_materialize_agrees(x.terms(), y.terms(), c2, w2);
        let c3 = semantics::materialize(Mode::GenConstraints, x.terms(), y.terms(), c2)->Ok_0.1;
        let w3 = semantics::materialize(Mode::GenWitness, x.terms(), y.terms(), w2)->Ok_0.1;
        lemma_hold_joins(c.list, c2.list, c3.list, w2.table, w3.table);
        lemma_keeps_joins(w.table, w2.table, w3.table);
    }
}

/// A sum or a difference alike, where the operands have been evaluated alike.
proof fn lemma_sum_alike(e: Expression, l: Expression, r: Expression, c: State, w: State)
    requires
        agree(c, w),
        e == Expression::Add(Box::new(l), Box::new(r)) || e == Expression::Sub(
            Box::new(l),
            Box::new(r),
        ),
        both_evaluate(e, c, w),
        both_evaluate(l, c, w),
        evaluated_alike(l, c, w),
        both_evaluate(
            r,
            semantics::evaluate(Mode::GenConstraints, l, c)->Ok_0.1,
            semantics::evaluate(Mode::GenWitness, l, w)->Ok_0.1,
        ),
        evaluated_alike(
            r,
            semantics::evaluate(Mode::GenConstraints, l, c)->Ok_0.1,
            semantics::evaluate(Mode::GenWitness, l, w)->Ok_0.1,
        ),
    ensures
        evaluated_alike(e, c, w),
{
    lemma_pair_alike(l, r, c, w);
}

/// The two modes agree on every expression. Where both evaluate an
/// expression, from states that have come equally far, they find the same
/// value and come equally far again; the witness keeps the numbers it had;
/// and the equations that one mode has emitted for the products in the
/// expression hold under the numbers that the other has given the signals
/// that stand for them.
pub proof fn lemma_evaluate_agrees(e: Expression, c: State, w: State)
    requires
        agree(c, w),
        both_evaluate(e, c, w),
    ensures
        evaluated_alike(e, c, w),
    decreases e,
{
    match e {
        Expression::Neg(x) => {
            lemma_evaluate_agrees(*x, c, w);
        },
        Expression::Add(l, r) => {
            lemma_operands_evaluate(*l, *r, c, w);
            let c1 = semantics::evaluate(Mode::GenConstraints, *l, c)->Ok_0.1;
            let w1 = semantics::evaluate(Mode::GenWitness, *l, w)->Ok_0.1;
            lemma_evaluate_agrees(*l, c, w);
            lemma_evaluate_agrees(*r, c1, w1);
            lemma_sum_alike(e, *l, *r, c, w);
        },
        Expression::Sub(l, r) => {
            lemma_operands_evaluate(*l, *r, c, w);
            let c1 = semantics::evaluate(Mode::GenConstraints, *l, c)->Ok_0.1;
            let w1 = semantics::evaluate(Mode::GenWitness, *l, w)->Ok_0.1;
            lemma_evaluate_agrees(*l, c, w);
            lemma_evaluate_agrees(*r, c1, w1);
            lemma_sum_alike(e, *l, *r, c, w);
        },
        Expression::Mul(l, r) => {
            lemma_operands_evaluate(*l, *r, c, w);
            let c1 = semantics::evaluate(Mode::GenConstraints, *l, c)->Ok_0.1;
            let w1 = semantics::evaluate(Mode::GenWitness, *l, w)->Ok_0.1;
            lemma_evaluate_agrees(*l, c, w);
            lemma_evaluate_agrees(*r, c1, w1);
            lemma_product_alike(*l, *r, c, w);
        },
        _ => {
            lemma_leaf_alike(e, c, w);
        },
    }
}

/// Where both modes evaluate an expression of two operands, they evaluate
/// the operands, one after the other.
proof fn lemma_operands_evaluate(l: Expression, r: Expression, c: State, w: State)
    requires
        both_evaluate(Expression::Add(Box::new(l), Box::new(r)), c, w) || both_evaluate(
            Expression::Sub(Box::new(l), Box::new(r)),
            c,
            w,
        ) || both_evaluate(Expression::Mul(Box::new(l), Box::new(r)), c, w),
    ensures
        both_evaluate(l, c, w),
        both_evaluate(
            r,
            semantics::evaluate(Mode::GenConstraints, l, c)->Ok_0.1,
            semantics::evaluate(Mode::GenWitness, l, w)->Ok_0.1,
        ),
{
    let w1 = semantics::evaluate(Mode::GenWitness, l, w)->Ok_0.1;
    lemma_evaluate_grows(Mode::GenWitness, r, w1);
}

/// Both modes reduce the expression, and the signals that they need fit
/// the identifiers.
pub open spec fn both_reduce(e: Expression, c: State, w: State) -> bool {
    &&& semantics::reduce(Mode::GenConstraints, e, c) is Ok
    &&& semantics::reduce(Mode::GenWitness, e, w) matches Ok((f, w1)) && w1.table.len()
        <= usize::MAX
}

/// The two modes have reduced an expression alike.
pub open spec fn reduced_alike(e: Expression, c: State, w: State) -> bool {
    let (fc, c1) = semantics::reduce(Mode::GenConstraints, e, c)->Ok_0;
    let (fw, w1) = semantics::reduce(Mode::GenWitness, e, w)->Ok_0;
    &&& fc == fw
    &&& agree(c1, w1)
    &&& c1.frames == c.frames
    &&& keeps(w.table, w1.table)
    &&& w1.list == w.list
    &&& extends(c.list, c1.list)
    &&& hold_from(c1.list, c.list.len() as int, w1.table)
}

/// The two modes agree on the form that an expression reduces to.
pub proof fn lemma_reduce_agrees(e: Expression, c: State, w: State)
    requires
        agree(c, w),
        both_reduce(e, c, w),
    ensures
        reduced_alike(e, c, w),
{
    match e {
        Expression::Mul(l, r) => {
            let c1 = semantics::evaluate(Mode::GenConstraints, *l, c)->Ok_0.1;
            let w1 = semantics::evaluate(Mode::GenWitness, *l, w)->Ok_0.1;
            lemma_evaluate_grows(Mode::GenWitness, *r, w1);
            assert(both_evaluate(*l, c, w));
            assert(both_evaluate(*r, c1, w1));
            lemma_evaluate_agrees(*l, c, w);
            lemma_evaluate_agrees(*r, c1, w1);
            lemma_pair_alike(*l, *r, c, w);
        },
        _ => {
            assert(both_evaluate(e, c, w));
            lemma_evaluate_agrees(e, c, w);
        },
    }
}

/// Two runs that have come equally far find the same target.
pub proof fn lemma_target_agrees(target: Target, c: State, w: State)
    requires
        agree(c, w),
    ensures
        semantics::target_signal(c, target) is Ok == semantics::target_signal(w, target) is Ok,
        semantics::target_signal(c, target) matches Ok(t) ==> semantics::target_signal(
            w,
            target,
        )->Ok_0.id == t.id && t.id < c.table.len(),
{
    match target {
        Target::Signal(name) => {
            let full_name = scope::qualified(c.prefix(), name@);
            lemma_find_aligned(c.table, w.table, full_name);
            if types::has_name(c.table, full_name) {
                types::lemma_index_of(c.table, types::index_of(c.table, full_name));
            }
        },
        Target::Pin(component, signal) => {
            let path = scope::qualified(c.prefix(), component@);
            let full_name = scope::qualified(path, signal@);
            lemma_find_aligned(c.table, w.table, full_name);
            if types::has_name(c.table, full_name) {
                types::lemma_index_of(c.table, types::index_of(c.table, full_name));
            }
        },
    }
}

/// The equation of an assignment holds once the target has taken the
/// number of the form, and the equations that held before go on holding,
/// where the target had no number before.
proof fn lemma_assignment_holds(
    form: Form,
    t: SignalId,
    list: Seq<QeqView>,
    from: int,
    table: Seq<SignalView>,
)
    requires
        well_formed(table),
        one_in_place(table),
        t < table.len(),
        substitute::scalar_of(table, t) is None,
        semantics::form_number(form, table) is Ok,
        form matches Form::Linear(v) ==> !(v is Unknown),
        hold_from(list, from, table),
        0 <= from <= list.len(),
    ensures
        ({
            let next = table.update(
                t as int,
                types::with_value(
                    table[t as int],
                    ValueView::FieldScalar(semantics::form_number(form, table)->Ok_0),
                ),
            );
            &&& hold_from(
                list.push(semantics::equation(form, semantics::symbol(t))),
                from,
                next,
            )
            &&& well_formed(next)
            &&& aligned(table, next)
            &&& forall|id: SignalId|
                id != t ==> substitute::scalar_of(next, id) == substitute::scalar_of(table, id)
        }),
{
    let n = semantics::form_number(form, table)->Ok_0;
    let next = table.update(t as int, types::with_value(table[t as int], ValueView::FieldScalar(n)));
    let q = semantics::equation(form, semantics::symbol(t));
    let all = list.push(q);
    match form {
        Form::Linear(v) => {
            let terms = v.terms();
            assert forall|k: int| 0 <= k < terms.len() implies (#[trigger] terms[k]).0 != t by {
                match v {
                    ValueView::FieldScalar(f) => {},
                    _ => {
                        assert(substitute::scalar_of(table, terms[k].0) is Some);
                    },
                }
            }
            lc::lemma_coefficient_absent(terms, t);
            lemma_linear_assignment_sound(v, t, table);
        },
        Form::Product(a, b) => {
            assert forall|k: int| 0 <= k < a.len() implies (#[trigger] a[k]).0 != t by {
                assert(substitute::scalar_of(table, a[k].0) is Some);
            }
            assert forall|k: int| 0 <= k < b.len() implies (#[trigger] b[k]).0 != t by {
                assert(substitute::scalar_of(table, b[k].0) is Some);
            }
            lc::lemma_coefficient_absent(a, t);
            lc::lemma_coefficient_absent(b, t);
            lemma_product_assignment_sound(a, b, t, table);
        },
    }
    assert forall|id: SignalId| id != t implies substitute::scalar_of(next, id)
        == substitute::scalar_of(table, id) by {
        if id < table.len() {
            assert(next[id as int] == table[id as int]);
        }
    }
    assert forall|i: int| from <= i < all.len() implies check::satisfied(
        #[trigger] all[i],
        next,
    ) by {
        if i < list.len() {
            let p = list[i];
            assert(all[i] == p);
            assert(check::satisfied(p, table));
            lemma_unnamed_agrees(p.a, t, table, next);
            lemma_unnamed_agrees(p.b, t, table, next);
            lemma_unnamed_agrees(p.c, t, table, next);
            lemma_satisfied_stays(p, table, next);
        }
    }
    assert(types::dense(next)) by {
        assert forall|i: int| 0 <= i < next.len() implies (#[trigger] next[i]).id == i by {
            assert(table[i].id == i);
        }
    }
    assert(types::distinct_names(next)) by {
        assert forall|i: int, j: int| 0 <= i < j < next.len() implies (#[trigger] next[i]).full_name
            != (#[trigger] next[j]).full_name by {
            assert(next[i].full_name == table[i].full_name);
            assert(next[j].full_name == table[j].full_name);
        }
    }
}

/// Terms with numbers do not name a signal without one, so they read the
/// same once that signal has taken a number.
proof fn lemma_unnamed_agrees(
    terms: Seq<(SignalId, FS)>,
    t: SignalId,
    table: Seq<SignalView>,
    next: Seq<SignalView>,
)
    requires
        substitute::assigned(terms, table),
        substitute::scalar_of(table, t) is None,
        forall|id: SignalId|
            id != t ==> substitute::scalar_of(next, id) == substitute::scalar_of(table, id),
    ensures
        agree_on(terms, table, next),
{
    assert forall|k: int| 0 <= k < terms.len() implies substitute::scalar_of(
        table,
        (#[trigger] terms[k]).0,
    ) == substitute::scalar_of(next, terms[k].0) by {
        assert(substitute::scalar_of(table, terms[k].0) is Some);
    }
}

/// A constrained assignment is sound. Let a run that emits constraints and
/// a run that computes the witness have come equally far, with the signal
/// `one` in its place and the equations from `base` on holding, and let
/// both make the same constrained assignment, to a target that has no
/// number yet. Then the runs have come equally far again, and the equations
/// from `base` on hold: those that held before, and every equation that the
/// one run has emitted for the assignment, for the products inside the
/// expression as for the assignment itself.
pub proof fn lemma_constrained_assignment_sound(
    target: Target,
    value: Expression,
    c: State,
    w: State,
    base: int,
)
    requires
        agree(c, w),
        one_in_place(w.table),
        0 <= base <= c.list.len(),
        hold_from(c.list, base, w.table),
        semantics::constrained_assign(Mode::GenConstraints, target, value, c) is Ok,
        semantics::constrained_assign(Mode::GenWitness, target, value, w) matches Ok(w1)
            && w1.table.len() <= usize::MAX,
        semantics::target_signal(w, target) matches Ok(t) && substitute::scalar_of(w.table, t.id)
            is None,
    ensures
        ({
            let c1 = semantics::constrained_assign(Mode::GenConstraints, target, value, c)->Ok_0;
            let w1 = semantics::constrained_assign(Mode::GenWitness, target, value, w)->Ok_0;
            &&& agree(c1, w1)
            &&& one_in_place(w1.table)
            &&& w1.list == w.list
            &&& extends(c.list, c1.list)
            &&& hold_from(c1.list, base, w1.table)
        }),
{
    let t = semantics::target_signal(w, target)->Ok_0.id;
    lemma_target_agrees(target, c, w);
    let (form, c1) = semantics::reduce(Mode::GenConstraints, value, c)->Ok_0;
    let (fw, w1) = semantics::reduce(Mode::GenWitness, value, w)->Ok_0;
    assert(both_reduce(value, c, w));
    lemma_reduce_agrees(value, c, w);
    lemma_hold_extends(c.list, c1.list, base, w.table, w1.table);
    lemma_assignment_holds(form, t, c1.list, base, w1.table);
    let c2 = semantics::constrained_assign(Mode::GenConstraints, target, value, c)->Ok_0;
    let w2 = semantics::constrained_assign(Mode::GenWitness, target, value, w)->Ok_0;
    assert(aligned(c2.table, w2.table)) by {
        assert forall|i: int| 0 <= i < c2.table.len() implies (#[trigger] c2.table[i]).id
            == w2.table[i].id && c2.table[i].full_name == w2.table[i].full_name
            && c2.table[i].xtype == w2.table[i].xtype by {
            assert(c1.table[i].id == w1.table[i].id);
            assert(w2.table[i].id == w1.table[i].id);
        }
    }
    assert(well_formed(c2.table)) by {
        assert forall|i: int| 0 <= i < c2.table.len() implies (#[trigger] c2.table[i]).id == i by {
            assert(c1.table[i].id == i);
        }
        assert forall|i: int, j: int| 0 <= i < j < c2.table.len() implies (
        #[trigger] c2.table[i]).full_name != (#[trigger] c2.table[j]).full_name by {
            assert(c2.table[i].full_name == c1.table[i].full_name);
            assert(c2.table[j].full_name == c1.table[j].full_name);
        }
    }
    assert forall|i: int| 0 <= i < c.list.len() implies #[trigger] c2.list[i] == c.list[i] by {
        assert(c1.list[i] == c.list[i]);
    }
}

/// The equations from `base` on hold after a step that has kept the
/// numbers: those that held before the step, and those that the step has
/// emitted.
pub proof fn lemma_hold_extends(
    list: Seq<QeqView>,
    next: Seq<QeqView>,
    base: int,
    before: Seq<SignalView>,
    after: Seq<SignalView>,
)
    requires
        0 <= base <= list.len(),
        extends(list, next),
        hold_from(list, base, before),
        hold_from(next, list.len() as int, after),
        keeps(before, after),
    ensures
        hold_from(next, base, after),
{
    lemma_hold_stays(list, base, before, after);
    assert forall|i: int| base <= i < next.len() implies check::satisfied(
        #[trigger] next[i],
        after,
    ) by {
        if i < list.len() {
            assert(next[i] == list[i]);
            assert(check::satisfied(list[i], after));
        }
    }
}

/// A signal without a number takes one: the table stays well formed and
/// aligned with itself, the signal `one` stays in its place, and the
/// equations that held go on holding.
pub proof fn lemma_number_given(
    list: Seq<QeqView>,
    base: int,
    t: SignalId,
    table: Seq<SignalView>,
    next: Seq<SignalView>,
)
    requires
        well_formed(table),
        one_in_place(table),
        t < table.len(),
        substitute::scalar_of(table, t) is None,
        hold_from(list, base, table),
        next.len() == table.len(),
        forall|i: int|
            0 <= i < table.len() ==> (#[trigger] next[i]).id == table[i].id && next[i].full_name
                == table[i].full_name && next[i].xtype == table[i].xtype,
        forall|i: int| 0 <= i < table.len() && i != t ==> #[trigger] next[i] == table[i],
    ensures
        well_formed(next),
        one_in_place(next),
        hold_from(list, base, next),
{
    assert forall|id: SignalId| id != t implies substitute::scalar_of(next, id)
        == substitute::scalar_of(table, id) by {
        if id < table.len() {
            assert(next[id as int] == table[id as int]);
        }
    }
    assert forall|i: int| base <= i < list.len() implies check::satisfied(
        #[trigger] list[i],
        next,
    ) by {
        let p = list[i];
        assert(check::satisfied(p, table));
        lemma_unnamed_agrees(p.a, t, table, next);
        lemma_unnamed_agrees(p.b, t, table, next);
        lemma_unnamed_agrees(p.c, t, table, next);
        lemma_satisfied_stays(p, table, next);
    }
    assert(types::dense(next)) by {
        assert forall|i: int| 0 <= i < next.len() implies (#[trigger] next[i]).id == i by {
            assert(table[i].id == i);
        }
    }
    assert(types::distinct_names(next)) by {
        assert forall|i: int, j: int| 0 <= i < j < next.len() implies (#[trigger] next[i]).full_name
            != (#[trigger] next[j]).full_name by {
            assert(next[i].full_name == table[i].full_name);
            assert(next[j].full_name == table[j].full_name);
        }
    }
}

} // verus!
