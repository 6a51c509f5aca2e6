//! Operators applied to states without a matrix.

use vstd::prelude::*;
use crate::action;
use crate::assembly::Entries;
use crate::assembly;
use crate::basis::Basis;
use crate::error::{QmbedError, Result};
use crate::local::{Factor, Fault, Transition};
use crate::local;
use crate::scalar::{Amplitude, Scalar};
use crate::terms::{Coupling, OperatorTerm};
use crate::terms;
use crate::triplets::Triplet;
use crate::triplets;
use crate::weights;

verus! {

/// A matrix element between two states.
#[derive(Clone, Copy, Debug)]
pub struct BraKetTransition<S, V> {
    pub bra: S,
    pub ket: S,
    pub matrix_element: V,
}

/// Matrix elements, or the first fault met.
pub type Elements<S, V> = std::result::Result<Seq<BraKetTransition<S, V>>, Fault>;

/// The first elements followed by the second ones, or the first fault.
pub open spec fn joined<S, V>(first: Elements<S, V>, second: Elements<S, V>) -> Elements<S, V> {
    match first {
        Err(fault) => Err(fault),
        Ok(a) => match second {
            Err(fault) => Err(fault),
            Ok(b) => Ok(a + b),
        },
    }
}

/// The matrix elements of outcomes, those that count as zero left out.
pub open spec fn elements<S, V: Amplitude>(
    list: Seq<(S, Seq<Factor>)>,
    ket: S,
    coefficient: V,
) -> Seq<BraKetTransition<S, V>>
    decreases list.len(),
{
    if list.len() == 0 {
        Seq::empty()
    } else {
        let front = elements(list.drop_last(), ket, coefficient);
        let (bra, factors) = list.last();
        let matrix_element = coefficient.product(weights::weight::<V>(factors));
        if matrix_element.tiny() {
            front
        } else {
            front.push(BraKetTransition { bra, ket, matrix_element })
        }
    }
}

/// The matrix elements of an operator string on the states from place `at` on.
pub open spec fn elements_from<B: Basis, V: Amplitude>(
    basis: &B,
    operator: Seq<char>,
    sites: Seq<usize>,
    coefficient: V,
    kets: Seq<B::State>,
    at: int,
) -> Elements<B::State, V>
    decreases kets.len() - at,
{
    if at >= kets.len() {
        Ok(Seq::empty())
    } else {
        joined(
            match weights::text_action(basis, kets[at], operator, sites) {
                Ok(list) => Ok(elements(list, kets[at], coefficient)),
                Err(fault) => Err(fault),
            },
            elements_from(basis, operator, sites, coefficient, kets, at + 1),
        )
    }
}

pub proof fn lemma_joined<S, V>(
    done: Seq<BraKetTransition<S, V>>,
    step: Seq<BraKetTransition<S, V>>,
    rest: Elements<S, V>,
)
    ensures
        joined(Elements::Ok(done), joined(Elements::Ok(step), rest)) == joined(
            Elements::Ok(done + step),
            rest,
        ),
{
    if let Ok(more) = rest {
        assert(done + (step + more) =~= (done + step) + more);
    }
}

/// Adds the matrix elements of outcomes to a table.
pub(crate) fn push_elements<S: Copy, V: Amplitude>(
    branches: &Vec<Transition<S>>,
    ket: S,
    coefficient: V,
    table: &mut Vec<BraKetTransition<S, V>>,
)
    ensures
        final(table)@ == old(table)@ + elements(
            local::transitions_view(branches@),
            ket,
            coefficient,
        ),
{
    let ghost all = local::transitions_view(branches@);
    let ghost start = table@;
    let mut position: usize = 0;
    proof {
        assert(all.subrange(0, 0) =~= Seq::empty());
        assert(start + elements(all.subrange(0, 0), ket, coefficient) =~= start);
    }
    while position < branches.len()
        invariant
            all == local::transitions_view(branches@),
            position <= branches@.len(),
            table@ == start + elements(all.subrange(0, position as int), ket, coefficient),
        decreases branches@.len() - position,
    {
        let ghost before = elements(all.subrange(0, position as int), ket, coefficient);
        assert(all.subrange(0, position + 1).drop_last() =~= all.subrange(0, position as int));
        let amplitude: V = weights::weigh(&branches[position].factors);
        let matrix_element: V = coefficient.times(amplitude);
        if !matrix_element.is_negligible() {
            let element: BraKetTransition<S, V> = BraKetTransition {
                bra: branches[position].state,
                ket,
                matrix_element,
            };
            table.push(element);
            assert((start + before).push(element) =~= start + before.push(element));
        }
        position = position + 1;
    }
    assert(all.subrange(0, position as int) =~= all);
}

/// The matrix elements of an operator string on given states, without symmetry
/// reduction.
pub fn bra_ket_transitions<B: Basis, V: Amplitude>(
    basis: &B,
    operator: &str,
    sites: &[usize],
    coefficient: V,
    kets: &[B::State],
) -> (result: Result<Vec<BraKetTransition<B::State, V>>>)
    requires
        basis.well_formed(),
        forall|i: int| 0 <= i < kets@.len() ==> basis.accepts(#[trigger] kets@[i]),
    ensures
        match result {
            Ok(table) => coefficient.proper() && elements_from(
                basis,
                operator@,
                sites@,
                coefficient,
                kets@,
                0,
            ) == Elements::<B::State, V>::Ok(table@),
            Err(error) => if !coefficient.proper() {
                error is InvalidCoupling
            } else {
                let whole = elements_from(basis, operator@, sites@, coefficient, kets@, 0);
                whole is Err && local::reports(error, whole->Err_0)
            },
        },
{
    if !coefficient.is_finite() {
        return Err(
            QmbedError::InvalidCoupling("transition-table coefficient must be finite".to_string()),
        );
    }
    let ghost whole = elements_from(basis, operator@, sites@, coefficient, kets@, 0);
    let mut table: Vec<BraKetTransition<B::State, V>> = Vec::new();
    let mut index: usize = 0;
    proof {
        if let Ok(list) = whole {
            assert(table@ + list =~= list);
        }
    }
    while index < kets.len()
        invariant
            basis.well_formed(),
            coefficient.proper(),
            index <= kets@.len(),
            forall|i: int| 0 <= i < kets@.len() ==> basis.accepts(#[trigger] kets@[i]),
            whole == elements_from(basis, operator@, sites@, coefficient, kets@, 0),
            whole == joined(
                Elements::Ok(table@),
                elements_from(basis, operator@, sites@, coefficient, kets@, index as int),
            ),
        decreases kets@.len() - index,
    {
        let ket: B::State = kets[index];
        let ghost done = table@;
        match weights::apply_local_unreduced_transitions(basis, ket, operator, sites) {
            Ok(branches) => {
                push_elements(&branches, ket, coefficient, &mut table);
                proof {
                    lemma_joined(
                        done,
                        elements(local::transitions_view(branches@), ket, coefficient),
                        elements_from(
                            basis,
                            operator@,
                            sites@,
                            coefficient,
                            kets@,
                            index + 1,
                        ),
                    );
                }
            },
            Err(error) => {
                return Err(error);
            },
        }
        index = index + 1;
    }
    assert(table@ + Seq::<BraKetTransition<B::State, V>>::empty() =~= table@);
    Ok(table)
}

/// The contributions of a coupling to the image of one source state.
pub open spec fn coupling_shift<S: Basis, T: Basis<State = S::State>, V: Amplitude>(
    source: &S,
    target: &T,
    column: int,
    component: V,
    label: Seq<char>,
    coupling: Coupling<V>,
) -> Entries<V> {
    let state = source.listed()[column];
    match weights::text_action(source, state, label, coupling.sites@) {
        Err(fault) => Err(fault),
        Ok(list) => Ok(
            assembly::outcome_entries(
                target,
                list,
                source.orbit_weight(state) as usize,
                0,
                component.product(coupling.coefficient),
            ),
        ),
    }
}

/// The operator string of a term.
pub open spec fn term_label<V: Scalar>(term: &OperatorTerm<V>) -> Seq<char> {
    terms::spelled_out(term.factors().operators(), term.factors().boundary())
}

/// The contributions of the couplings of a term from place `at` on.
pub open spec fn couplings_shift<S: Basis, T: Basis<State = S::State>, V: Amplitude>(
    source: &S,
    target: &T,
    column: int,
    component: V,
    term: &OperatorTerm<V>,
    at: int,
) -> Entries<V>
    decreases term.terms().len() - at,
{
    if at >= term.terms().len() {
        Ok(Seq::empty())
    } else {
        assembly::chained(
            coupling_shift(source, target, column, component, term_label(term), term.terms()[at]),
            couplings_shift(source, target, column, component, term, at + 1),
        )
    }
}

/// The contributions of the terms from place `at` on.
pub open spec fn terms_shift<S: Basis, T: Basis<State = S::State>, V: Amplitude>(
    source: &S,
    target: &T,
    column: int,
    component: V,
    list: Seq<OperatorTerm<V>>,
    at: int,
) -> Entries<V>
    decreases list.len() - at,
{
    if at >= list.len() {
        Ok(Seq::empty())
    } else {
        assembly::chained(
            couplings_shift(source, target, column, component, &list[at], 0),
            terms_shift(source, target, column, component, list, at + 1),
        )
    }
}

/// The contributions of the source states from place `at` on; components that count as
/// zero contribute nothing.
pub open spec fn columns_shift<S: Basis, T: Basis<State = S::State>, V: Amplitude>(
    source: &S,
    target: &T,
    list: Seq<OperatorTerm<V>>,
    input: Seq<V>,
    at: int,
) -> Entries<V>
    decreases input.len() - at,
{
    if at >= input.len() {
        Ok(Seq::empty())
    } else {
        assembly::chained(
            if input[at].tiny() {
                Ok(Seq::empty())
            } else {
                terms_shift(source, target, at, input[at], list, 0)
            },
            columns_shift(source, target, list, input, at + 1),
        )
    }
}

proof fn lemma_chained<V>(done: Seq<Triplet<V>>, step: Seq<Triplet<V>>, rest: Entries<V>)
    ensures
        assembly::chained(Entries::Ok(done), assembly::chained(Entries::Ok(step), rest))
            == assembly::chained(Entries::Ok(done + step), rest),
{
    if let Ok(more) = rest {
        assert(done + (step + more) =~= (done + step) + more);
    }
}

proof fn lemma_chain_ends<V>(done: Seq<Triplet<V>>)
    ensures
        assembly::chained(Entries::Ok(done), Entries::Ok(Seq::empty())) == Entries::Ok(done),
        assembly::chained(Entries::Ok(Seq::empty()), Entries::Ok(done)) == Entries::Ok(done),
{
    assert(done + Seq::<Triplet<V>>::empty() =~= done);
    assert(Seq::<Triplet<V>>::empty() + done =~= done);
}

/// A vector holds the sums of contributions.
pub open spec fn holds<V: Scalar>(output: Seq<V>, list: Seq<Triplet<V>>) -> bool {
    forall|row: int|
        0 <= row < output.len() ==> #[trigger] output[row] == triplets::cell_sum(list, row, 0)
}

/// Adds the contributions of outcomes.
fn add_outcomes<T: Basis, V: Amplitude>(
    target: &T,
    branches: &Vec<Transition<T::State>>,
    source_orbit: usize,
    coefficient: V,
    output: &mut [V],
    Ghost(done): Ghost<Seq<Triplet<V>>>,
)
    requires
        target.well_formed(),
        old(output)@.len() == target.listed().len(),
        holds(old(output)@, done),
    ensures
        final(output)@.len() == old(output)@.len(),
        holds(
            final(output)@,
            done + assembly::outcome_entries(
                target,
                local::transitions_view(branches@),
                source_orbit,
                0,
                coefficient,
            ),
        ),
{
    let ghost all = local::transitions_view(branches@);
    let ghost size = output@.len();
    let mut position: usize = 0;
    proof {
        assert(all.subrange(0, 0) =~= Seq::empty());
        assert(done + assembly::outcome_entries(
            target,
            all.subrange(0, 0),
            source_orbit,
            0,
            coefficient,
        ) =~= done);
    }
    while position < branches.len()
        invariant
            target.well_formed(),
            all == local::transitions_view(branches@),
            position <= branches@.len(),
            size == old(output)@.len(),
            output@.len() == size,
            size == target.listed().len(),
            holds(
                output@,
                done + assembly::outcome_entries(
                    target,
                    all.subrange(0, position as int),
                    source_orbit,
                    0,
                    coefficient,
                ),
            ),
        decreases branches@.len() - position,
    {
        let ghost front = assembly::outcome_entries(
            target,
            all.subrange(0, position as int),
            source_orbit,
            0,
            coefficient,
        );
        let ghost before = output@;
        assert(all.subrange(0, position + 1).drop_last() =~= all.subrange(0, position as int));
        if let Some(landing) = target.index_transition(branches[position].state, source_orbit) {
            let amplitude: V = weights::weigh(&branches[position].factors);
            let value: V = coefficient.times(amplitude).times(
                V::from_reduction(landing.reduction),
            );
            let row: usize = landing.index;
            let sum: V = output[row].plus(value);
            output[row] = sum;
            proof {
                let entry = Triplet { row, column: 0usize, value };
                let longer = done + front.push(entry);
                assert(longer =~= (done + front).push(entry));
                assert(longer.drop_last() =~= done + front);
                assert forall|r: int| 0 <= r < size implies #[trigger] output@[r]
                    == triplets::cell_sum(longer, r, 0) by {
                    assert(before[r] == triplets::cell_sum(done + front, r, 0));
                    let values = triplets::values_at(done + front, r, 0);
                    assert(values.push(value).drop_last() =~= values);
                }
            }
        }
        position = position + 1;
    }
    assert(all.subrange(0, position as int) =~= all);
}

/// Adds what one source state contributes.
fn add_column<S: Basis, T: Basis<State = S::State>, V: Amplitude>(
    source: &S,
    target: &T,
    column: usize,
    component: V,
    list: &[OperatorTerm<V>],
    output: &mut [V],
    Ghost(done): Ghost<Seq<Triplet<V>>>,
) -> (result: Result<()>)
    requires
        source.well_formed(),
        target.well_formed(),
        column < source.listed().len(),
        forall|i: int| 0 <= i < list@.len() ==> (#[trigger] list@[i]).wf(),
        old(output)@.len() == target.listed().len(),
        holds(old(output)@, done),
    ensures
        final(output)@.len() == old(output)@.len(),
        match result {
            Ok(()) => {
                let step = terms_shift(source, target, column as int, component, list@, 0);
                step is Ok && holds(final(output)@, done + step->Ok_0)
            },
            Err(error) => {
                let step = terms_shift(source, target, column as int, component, list@, 0);
                step is Err && local::reports(error, step->Err_0)
            },
        },
{
    let ghost whole = terms_shift(source, target, column as int, component, list@, 0);
    let ghost size = output@.len();
    let state: S::State = match source.state(column) {
        Ok(state) => state,
        Err(error) => {
            assert(false);
            return Err(error);
        },
    };
    let source_orbit: usize = match source.transition_orbit_size(state) {
        Ok(size) => size,
        Err(error) => {
            assert(source.listed().contains(source.listed()[column as int]));
            assert(false);
            return Err(error);
        },
    };
    let ghost mut added: Seq<Triplet<V>> = Seq::empty();
    let mut index: usize = 0;
    proof {
        assert(done + added =~= done);
        if let Ok(all) = whole {
            lemma_chain_ends(all);
        }
    }
    while index < list.len()
        invariant
            source.well_formed(),
            target.well_formed(),
            column < source.listed().len(),
            state == source.listed()[column as int],
            source.accepts(state),
            source_orbit == source.orbit_weight(state),
            forall|i: int| 0 <= i < list@.len() ==> (#[trigger] list@[i]).wf(),
            size == old(output)@.len(),
            output@.len() == size,
            size == target.listed().len(),
            index <= list@.len(),
            holds(output@, done + added),
            whole == terms_shift(source, target, column as int, component, list@, 0),
            whole == assembly::chained(
                Entries::Ok(added),
                terms_shift(source, target, column as int, component, list@, index as int),
            ),
        decreases list@.len() - index,
    {
        let term: &OperatorTerm<V> = &list[index];
        let ghost rest = terms_shift(
            source,
            target,
            column as int,
            component,
            list@,
            index + 1,
        );
        let ghost outer = added;
        let ghost part = couplings_shift(source, target, column as int, component, term, 0);
        let ghost mut inner: Seq<Triplet<V>> = Seq::empty();
        let couplings: &[Coupling<V>] = term.couplings();
        let mut at: usize = 0;
        proof {
            assert(outer + inner =~= outer);
            if let Ok(all) = part {
                lemma_chain_ends(all);
            }
        }
        while at < couplings.len()
            invariant
                source.well_formed(),
                target.well_formed(),
                column < source.listed().len(),
                state == source.listed()[column as int],
                source.accepts(state),
                source_orbit == source.orbit_weight(state),
                term.wf(),
                couplings@ == term.terms(),
                size == old(output)@.len(),
                output@.len() == size,
                size == target.listed().len(),
                at <= couplings@.len(),
                holds(output@, done + (outer + inner)),
                whole == terms_shift(source, target, column as int, component, list@, 0),
                whole == assembly::chained(Entries::Ok(outer), assembly::chained(part, rest)),
                part == assembly::chained(
                    Entries::Ok(inner),
                    couplings_shift(source, target, column as int, component, term, at as int),
                ),
            decreases couplings@.len() - at,
        {
            let ghost later = couplings_shift(
                source,
                target,
                column as int,
                component,
                term,
                at + 1,
            );
            let coupling: &Coupling<V> = &couplings[at];
            match weights::apply_local_unreduced_transitions(
                source,
                state,
                term.operator(),
                coupling.sites.as_slice(),
            ) {
                Ok(branches) => {
                    let coefficient: V = component.times(coupling.coefficient);
                    let ghost step = assembly::outcome_entries(
                        target,
                        local::transitions_view(branches@),
                        source_orbit,
                        0,
                        coefficient,
                    );
                    add_outcomes(
                        target,
                        &branches,
                        source_orbit,
                        coefficient,
                        output,
                        Ghost(done + (outer + inner)),
                    );
                    proof {
                        lemma_chained(inner, step, later);
                        assert((done + (outer + inner)) + step =~= done + (outer + (inner
                            + step)));
                        inner = inner + step;
                    }
                },
                Err(error) => {
                    return Err(error);
                },
            }
            at = at + 1;
        }
        proof {
            lemma_chain_ends(inner);
            lemma_chained(outer, inner, rest);
            added = outer + inner;
        }
        index = index + 1;
    }
    proof {
        lemma_chain_ends(added);
    }
    Ok(())
}

/// Applies terms to a state of the source basis and writes the image in the target
/// basis.
pub fn apply_sector_shift<S: Basis, T: Basis<State = S::State>, V: Amplitude>(
    source: &S,
    target: &T,
    list: &[OperatorTerm<V>],
    input: &[V],
    output: &mut [V],
) -> (result: Result<()>)
    requires
        source.well_formed(),
        target.well_formed(),
        forall|i: int| 0 <= i < list@.len() ==> (#[trigger] list@[i]).wf(),
    ensures
        final(output)@.len() == old(output)@.len(),
        match result {
            Ok(()) => {
                let whole = columns_shift(source, target, list@, input@, 0);
                &&& input@.len() == source.listed().len()
                &&& old(output)@.len() == target.listed().len()
                &&& whole is Ok
                &&& holds(final(output)@, whole->Ok_0)
            },
            Err(error) => if input@.len() != source.listed().len() || old(output)@.len()
                != target.listed().len() {
                error is DimensionMismatch && final(output)@ == old(output)@
            } else {
                let whole = columns_shift(source, target, list@, input@, 0);
                whole is Err && local::reports(error, whole->Err_0)
            },
        },
{
    if input.len() != source.len() || output.len() != target.len() {
        return Err(
            QmbedError::DimensionMismatch(
                "sector-shift state dimensions do not match source and target bases".to_string(),
            ),
        );
    }
    let ghost whole = columns_shift(source, target, list@, input@, 0);
    let ghost size = output@.len();
    action::clear(output);
    let ghost mut added: Seq<Triplet<V>> = Seq::empty();
    let mut column: usize = 0;
    proof {
        if let Ok(all) = whole {
            lemma_chain_ends(all);
        }
    }
    while column < input.len()
        invariant
            source.well_formed(),
            target.well_formed(),
            input@.len() == source.listed().len(),
            forall|i: int| 0 <= i < list@.len() ==> (#[trigger] list@[i]).wf(),
            size == old(output)@.len(),
            output@.len() == size,
            size == target.listed().len(),
            column <= input@.len(),
            holds(output@, added),
            whole == columns_shift(source, target, list@, input@, 0),
            whole == assembly::chained(
                Entries::Ok(added),
                columns_shift(source, target, list@, input@, column as int),
            ),
        decreases input@.len() - column,
    {
        let ghost rest = columns_shift(source, target, list@, input@, column + 1);
        let ghost mut step: Seq<Triplet<V>> = Seq::empty();
        if input[column].is_negligible() {
            assert(added + step =~= added);
        } else {
            match add_column(source, target, column, input[column], list, output, Ghost(added)) {
                Ok(()) => {
                    proof {
                        step = terms_shift(
                            source,
                            target,
                            column as int,
                            input@[column as int],
                            list@,
                            0,
                        )->Ok_0;
                    }
                },
                Err(error) => {
                    return Err(error);
                },
            }
        }
        proof {
            lemma_chained(added, step, rest);
            added = added + step;
        }
        column = column + 1;
    }
    proof {
        lemma_chain_ends(added);
    }
    Ok(())
}

} // verus!
