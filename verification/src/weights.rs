//! Transitions with their amplitudes as numbers.

use vstd::prelude::*;
use crate::basis::Basis;
use crate::error::{QmbedError, Result};
use crate::local::{Factor, Fault, ProductOutcome, Transition};
use crate::local;
use crate::notation::SymbolList;
use crate::notation;
use crate::scalar::Amplitude;
use crate::triplets::Triplet;
use crate::triplets;

verus! {

/// The number that a factor stands for.
pub open spec fn factor_value<V: Amplitude>(factor: Factor) -> V {
    match factor {
        Factor::Local(one) => V::of_local(one),
        Factor::Orbit(reduction) => V::of_reduction(reduction),
        Factor::Given(bits) => V::of_bits(bits),
    }
}

/// The product of factors from left to right, beginning with one.
pub open spec fn weight<V: Amplitude>(factors: Seq<Factor>) -> V
    decreases factors.len(),
{
    if factors.len() == 0 {
        V::one_value()
    } else {
        weight::<V>(factors.drop_last()).product(factor_value(factors.last()))
    }
}

/// Multiplies factors.
pub fn weigh<V: Amplitude>(factors: &Vec<Factor>) -> (number: V)
    ensures
        number == weight::<V>(factors@),
{
    let mut number: V = V::one();
    let mut index: usize = 0;
    assert(factors@.subrange(0, 0) =~= Seq::<Factor>::empty());
    while index < factors.len()
        invariant
            index <= factors@.len(),
            number == weight::<V>(factors@.subrange(0, index as int)),
        decreases factors@.len() - index,
    {
        assert(factors@.subrange(0, index + 1).drop_last() =~= factors@.subrange(0, index as int));
        number = match factors[index] {
            Factor::Local(one) => number.times(V::from_local(one)),
            Factor::Orbit(reduction) => number.times(V::from_reduction(reduction)),
            Factor::Given(bits) => number.times(V::from_bits(bits)),
        };
        index = index + 1;
    }
    assert(factors@.subrange(0, index as int) =~= factors@);
    number
}

/// One outcome of an operator: the final state and the matrix element.
#[derive(Clone, Copy, Debug)]
pub struct Weighted<S, V> {
    pub state: S,
    pub amplitude: V,
}

/// Outcomes with their factors multiplied.
pub open spec fn weighed<S, V: Amplitude>(list: Seq<(S, Seq<Factor>)>) -> Seq<Weighted<S, V>> {
    Seq::new(
        list.len(),
        |i: int| Weighted { state: list[i].0, amplitude: weight::<V>(list[i].1) },
    )
}

/// The outcomes that land in a basis, by row and amplitude.
pub open spec fn landed<B: Basis, V: Amplitude>(
    basis: &B,
    list: Seq<(B::State, Seq<Factor>)>,
    source_orbit: usize,
) -> Seq<Triplet<V>>
    decreases list.len(),
{
    if list.len() == 0 {
        Seq::empty()
    } else {
        let front = landed::<B, V>(basis, list.drop_last(), source_orbit);
        let (state, factors) = list.last();
        match basis.landing(state, source_orbit) {
            Some(landing) => front.push(
                Triplet {
                    row: landing.index,
                    column: 0,
                    value: weight::<V>(factors).product(V::of_reduction(landing.reduction)),
                },
            ),
            None => front,
        }
    }
}

/// Sums over basis states, by state.
pub open spec fn by_state<B: Basis, V: Amplitude>(basis: &B, entries: Seq<Triplet<V>>) -> Seq<
    Weighted<B::State, V>,
> {
    Seq::new(
        entries.len(),
        |i: int|
            Weighted {
                state: basis.listed()[entries[i].row as int],
                amplitude: entries[i].value,
            },
    )
}

/// What an operator does to a state: the outcomes as they come where states stand for
/// themselves; elsewhere the sums over each basis state, in the order of the basis,
/// those that count as zero left out.
pub open spec fn gathers<B: Basis, V: Amplitude>(
    basis: &B,
    state: B::State,
    outcome: Seq<(B::State, Seq<Factor>)>,
    result: Seq<Weighted<B::State, V>>,
) -> bool {
    if !basis.orbit_reduced() {
        result == weighed::<B::State, V>(outcome)
    } else {
        let list = landed::<B, V>(basis, outcome, basis.orbit_weight(state) as usize);
        exists|entries: Seq<Triplet<V>>|
            {
                &&& #[trigger] triplets::accumulates(entries, list, false)
                &&& result == by_state(basis, entries)
            }
    }
}

/// The separators of an operator string are as the basis needs them.
pub open spec fn well_separated<B: Basis>(basis: &B, operator: Seq<char>) -> bool {
    !basis.two_parts() || notation::separated_once(operator)
}

pub open spec fn split_index(split: Option<nat>) -> Option<usize> {
    match split {
        Some(position) => Some(position as usize),
        None => None,
    }
}

/// What an operator string does to a state, before symmetry reduction.
pub open spec fn text_action<B: Basis>(
    basis: &B,
    state: B::State,
    operator: Seq<char>,
    sites: Seq<usize>,
) -> ProductOutcome<B::State> {
    if !well_separated(basis, operator) {
        Err(Fault::Symbol)
    } else if notation::symbols(operator).len() != sites.len() {
        Err(Fault::Arity)
    } else {
        basis.action(
            state,
            notation::symbols(operator),
            split_index(notation::species_split(operator)),
            sites,
        )
    }
}

/// Applies an operator string to a state without symmetry reduction.
pub fn apply_local_unreduced_transitions<B: Basis>(
    basis: &B,
    state: B::State,
    operator: &str,
    sites: &[usize],
) -> (result: Result<Vec<Transition<B::State>>>)
    requires
        basis.well_formed(),
        basis.accepts(state),
    ensures
        match result {
            Ok(list) => {
                &&& text_action(basis, state, operator@, sites@) == ProductOutcome::<
                    B::State,
                >::Ok(local::transitions_view(list@))
                &&& forall|i: int|
                    0 <= i < list.len() ==> basis.accepts((#[trigger] list[i]).state)
            },
            Err(error) => {
                &&& text_action(basis, state, operator@, sites@) is Err
                &&& local::reports(error, text_action(basis, state, operator@, sites@)->Err_0)
            },
        },
{
    let (split, single): (Option<usize>, bool) = notation::locate_separator(operator);
    if basis.needs_separator() && !single {
        return Err(
            QmbedError::InvalidOperator(
                "the operator string must contain one `|` separator".to_string(),
            ),
        );
    }
    let symbols: SymbolList = match notation::operator_chars(operator, sites) {
        Ok(list) => list,
        Err(error) => {
            return Err(error);
        },
    };
    basis.unreduced_transitions(state, notation::symbol_slice(&symbols), split, sites)
}

/// Applies an operator string to a state.
pub fn apply_local_transitions<B: Basis, V: Amplitude>(
    basis: &B,
    state: B::State,
    operator: &str,
    sites: &[usize],
) -> (result: Result<Vec<Weighted<B::State, V>>>)
    requires
        basis.well_formed(),
        basis.accepts(state),
    ensures
        match result {
            Ok(list) => {
                &&& text_action(basis, state, operator@, sites@) is Ok
                &&& basis.orbit_reduced() ==> basis.listed().contains(state)
                &&& gathers(
                    basis,
                    state,
                    text_action(basis, state, operator@, sites@)->Ok_0,
                    list@,
                )
            },
            Err(error) => match text_action(basis, state, operator@, sites@) {
                Err(fault) => local::reports(error, fault),
                Ok(_) => error is StateNotInBasis && basis.orbit_reduced()
                    && !basis.listed().contains(state),
            },
        },
{
    let branches: Vec<Transition<B::State>> = match apply_local_unreduced_transitions(
        basis,
        state,
        operator,
        sites,
    ) {
        Ok(list) => list,
        Err(error) => {
            return Err(error);
        },
    };
    let ghost outcome = local::transitions_view(branches@);
    let mut found: Vec<Weighted<B::State, V>> = Vec::new();
    if !basis.is_orbit_reduced() {
        let mut position: usize = 0;
        while position < branches.len()
            invariant
                position <= branches@.len(),
                outcome == local::transitions_view(branches@),
                found@.len() == position,
                forall|i: int|
                    0 <= i < position ==> #[trigger] found@[i] == weighed::<B::State, V>(
                        outcome,
                    )[i],
            decreases branches@.len() - position,
        {
            let amplitude: V = weigh(&branches[position].factors);
            found.push(Weighted { state: branches[position].state, amplitude });
            position = position + 1;
        }
        assert(found@ =~= weighed::<B::State, V>(outcome));
        return Ok(found);
    }
    let source_orbit: usize = match basis.transition_orbit_size(state) {
        Ok(size) => size,
        Err(error) => {
            return Err(error);
        },
    };
    let list: Vec<Triplet<V>> = land(basis, &branches, source_orbit);
    let entries: Vec<Triplet<V>> = triplets::accumulate(list.as_slice(), false);
    let mut position: usize = 0;
    proof {
        assert forall|i: int| 0 <= i < entries@.len() implies (#[trigger] entries@[i]).row
            < basis.listed().len() by {
            let row = entries@[i].row as int;
            let column = entries@[i].column as int;
            if triplets::values_at(list@, row, column).len() == 0 {
                V::lemma_zero();
            } else {
                triplets::lemma_some_entry(list@, row, column);
                let k = choose|k: int|
                    0 <= k < list@.len() && triplets::stands_at(#[trigger] list@[k], row, column);
                assert(list@[k].row < basis.listed().len());
            }
        }
    }
    while position < entries.len()
        invariant
            basis.well_formed(),
            position <= entries@.len(),
            forall|i: int|
                0 <= i < entries@.len() ==> (#[trigger] entries@[i]).row < basis.listed().len(),
            found@.len() == position,
            forall|i: int|
                0 <= i < position ==> #[trigger] found@[i] == (Weighted {
                    state: basis.listed()[entries@[i].row as int],
                    amplitude: entries@[i].value,
                }),
        decreases entries@.len() - position,
    {
        let entry: Triplet<V> = entries[position];
        assert(entries@[position as int].row < basis.listed().len());
        match basis.state(entry.row) {
            Ok(target) => {
                found.push(Weighted { state: target, amplitude: entry.value });
            },
            Err(_) => {
                assert(false);
                return Err(QmbedError::StateNotInBasis);
            },
        }
        position = position + 1;
    }
    assert(found@ =~= by_state(basis, entries@));
    assert(triplets::accumulates(
        entries@,
        landed::<B, V>(basis, outcome, basis.orbit_weight(state) as usize),
        false,
    ));
    Ok(found)
}

/// Finds the rows of outcomes and multiplies their factors.
fn land<B: Basis, V: Amplitude>(
    basis: &B,
    branches: &Vec<Transition<B::State>>,
    source_orbit: usize,
) -> (list: Vec<Triplet<V>>)
    requires
        basis.well_formed(),
    ensures
        list@ == landed::<B, V>(basis, local::transitions_view(branches@), source_orbit),
        forall|i: int|
            0 <= i < list@.len() ==> (#[trigger] list@[i]).row < basis.listed().len()
                && list@[i].column == 0,
{
    let ghost all = local::transitions_view(branches@);
    let mut list: Vec<Triplet<V>> = Vec::new();
    let mut position: usize = 0;
    assert(all.subrange(0, 0) =~= Seq::empty());
    while position < branches.len()
        invariant
            basis.well_formed(),
            all == local::transitions_view(branches@),
            position <= branches@.len(),
            list@ == landed::<B, V>(basis, all.subrange(0, position as int), source_orbit),
            forall|i: int|
                0 <= i < list@.len() ==> (#[trigger] list@[i]).row < basis.listed().len()
                    && list@[i].column == 0,
        decreases branches@.len() - position,
    {
        assert(all.subrange(0, position + 1).drop_last() =~= all.subrange(0, position as int));
        if let Some(landing) = basis.index_transition(branches[position].state, source_orbit) {
            let value: V = weigh(&branches[position].factors);
            let value: V = value.times(V::from_reduction(landing.reduction));
            list.push(Triplet { row: landing.index, column: 0, value });
        }
        position = position + 1;
    }
    assert(all.subrange(0, position as int) =~= all);
    list
}

/// Applies an operator string to a state that has at most one outcome.
pub fn apply_local<B: Basis, V: Amplitude>(
    basis: &B,
    state: B::State,
    operator: &str,
    sites: &[usize],
) -> (result: Result<Option<Weighted<B::State, V>>>)
    requires
        basis.well_formed(),
        basis.accepts(state),
    ensures
        match result {
            Ok(found) => {
                &&& text_action(basis, state, operator@, sites@) is Ok
                &&& basis.orbit_reduced() ==> basis.listed().contains(state)
                &&& gathers(
                    basis,
                    state,
                    text_action(basis, state, operator@, sites@)->Ok_0,
                    match found {
                        Some(one) => seq![one],
                        None => Seq::empty(),
                    },
                )
            },
            Err(error) => match text_action(basis, state, operator@, sites@) {
                Err(fault) => local::reports(error, fault),
                Ok(outcome) => if basis.orbit_reduced() && !basis.listed().contains(state) {
                    error is StateNotInBasis
                } else {
                    error is UnsupportedBackend && exists|list: Seq<Weighted<B::State, V>>| #[trigger]
                        gathers(basis, state, outcome, list) && list.len() >= 2
                },
            },
        },
{
    let list: Vec<Weighted<B::State, V>> = match apply_local_transitions(
        basis,
        state,
        operator,
        sites,
    ) {
        Ok(list) => list,
        Err(error) => {
            return Err(error);
        },
    };
    if list.len() == 0 {
        assert(list@ =~= Seq::empty());
        Ok(None)
    } else if list.len() == 1 {
        assert(list@ =~= seq![list@[0]]);
        Ok(Some(list[0]))
    } else {
        Err(
            QmbedError::UnsupportedBackend(
                "this local action branches; use apply_local_transitions".to_string(),
            ),
        )
    }
}

} // verus!
