//! The common interface of all many-body bases.

use vstd::prelude::*;
use crate::error::Result;
use crate::local::{Factor, Fault, ProductOutcome, Reduction, Transition};
use crate::notation;
use crate::local;
pub use crate::bigint::{state_from_biguint, state_to_biguint};
pub use crate::boson::{BosonBasis1D, BosonBasisBuilder};
pub use crate::fermion::{SpinlessFermionBasis1D, SpinlessFermionBasisBuilder};
pub use crate::general::{GeneralBasis, SymmetryMap, SymmetrySector};
pub use crate::lattice_map::{ExchangeStatistics, LatticeSymmetryMap};
pub use crate::packed::PackedBasis;
pub use crate::photon::PhotonBasis;
pub use crate::projector::BasisProjector;
pub use crate::ranking::photon_hspace_dim;
pub use crate::spin::{SpinBasis1D, SpinBasisBuilder, SpinNormalization};
pub use crate::spinful::{SpinfulFermionBasis1D, SpinfulFermionBasisBuilder};
pub use crate::tensor::TensorBasis;
pub use crate::user::{UserBasis, UserBasisBuilder};
pub use crate::wide::{
    basis_int_to_python_int, basis_ones, basis_zeros, bitwise_and, bitwise_leftshift, bitwise_not,
    bitwise_or, bitwise_rightshift, bitwise_xor, get_basis_type, python_int_to_basis_int,
    StateStorage, WideState, U1024, U16384, U256, U4096,
};
pub use crate::wide_spin::{
    WideSpinBasis, WideSpinBasis1024, WideSpinBasis16384, WideSpinBasis256, WideSpinBasis4096,
};

verus! {

/// Where a state ends up in a basis: its row, and the factor of the reduction.
#[derive(Clone, Copy, Debug, PartialEq, Eq, Structural)]
pub struct Landing {
    pub index: usize,
    pub reduction: Reduction,
}

/// A factor of one.
pub open spec fn no_reduction() -> Reduction {
    Reduction { turn: 0, steps: 1, given: None, source_orbit: 1, target_orbit: 1 }
}

/// Whether an operator string keeps a fixed particle number, where one is fixed.
pub open spec fn keeps_total(fixed: bool, operator: Seq<char>) -> std::result::Result<bool, Fault> {
    if !fixed {
        Ok(true)
    } else {
        match notation::number_change(operator) {
            Ok(change) => Ok(change == Some(0int)),
            Err(fault) => Err(fault),
        }
    }
}

pub(crate) fn total_is_kept(fixed: bool, operator: &str) -> (result: Result<bool>)
    requires
        operator@.len() <= i32::MAX,
    ensures
        match result {
            Ok(kept) => keeps_total(fixed, operator@) == std::result::Result::<bool, Fault>::Ok(
                kept,
            ),
            Err(error) => keeps_total(fixed, operator@) is Err && local::reports(
                error,
                keeps_total(fixed, operator@)->Err_0,
            ),
        },
{
    if !fixed {
        return Ok(true);
    }
    match notation::operator_number_change(operator) {
        Ok(Some(change)) => Ok(change == 0),
        Ok(None) => Ok(false),
        Err(error) => Err(error),
    }
}

/// An ordered list of many-body states with local operators acting on them.
pub trait Basis {
    type State: Copy;

    spec fn well_formed(&self) -> bool;

    /// The basis states in order.
    spec fn listed(&self) -> Seq<Self::State>;

    /// A state that the local operators can act on; every basis state is one.
    spec fn accepts(&self, state: Self::State) -> bool;

    /// What an operator product does, before symmetry reduction.
    spec fn action(
        &self,
        state: Self::State,
        symbols: Seq<char>,
        split: Option<usize>,
        sites: Seq<usize>,
    ) -> ProductOutcome<Self::State>;

    /// No state is listed twice.
    spec fn distinct(&self) -> bool;

    /// The place in which a listed state is found.
    spec fn seat(&self, state: Self::State) -> int;

    proof fn lemma_distinct(&self)
        requires
            self.well_formed(),
            self.distinct(),
        ensures
            self.listed().no_duplicates(),
    ;

    proof fn lemma_seat(&self, state: Self::State)
        requires
            self.well_formed(),
            self.listed().contains(state),
        ensures
            0 <= self.seat(state) < self.listed().len(),
            self.listed()[self.seat(state)] == state,
    ;

    /// The orbit size that belongs to a basis state, one where states stand for
    /// themselves.
    spec fn orbit_weight(&self, state: Self::State) -> nat;

    /// Where a state reached from a source orbit ends up.
    spec fn landing(&self, state: Self::State, source_orbit: usize) -> Option<Landing>;

    /// Basis states stand for whole orbits.
    spec fn orbit_reduced(&self) -> bool;

    fn len(&self) -> (length: usize)
        requires
            self.well_formed(),
        ensures
            length == self.listed().len(),
    ;

    /// Whether there are no states.
    fn is_empty(&self) -> (empty: bool)
        requires
            self.well_formed(),
        ensures
            empty == (self.listed().len() == 0),
    {
        self.len() == 0
    }

    fn state(&self, index: usize) -> (result: Result<Self::State>)
        requires
            self.well_formed(),
        ensures
            match result {
                Ok(state) => index < self.listed().len() && state == self.listed()[index as int]
                    && self.accepts(state),
                Err(error) => error is StateNotInBasis && index >= self.listed().len(),
            },
    ;

    fn index(&self, state: Self::State) -> (result: Result<usize>)
        requires
            self.well_formed(),
        ensures
            match result {
                Ok(index) => index < self.listed().len() && self.listed()[index as int] == state
                    && index == self.seat(state),
                Err(error) => error is StateNotInBasis && !self.listed().contains(state),
            },
    ;

    /// Applies an operator product without symmetry reduction.
    fn unreduced_transitions(
        &self,
        state: Self::State,
        symbols: &[char],
        split: Option<usize>,
        sites: &[usize],
    ) -> (result: Result<Vec<Transition<Self::State>>>)
        requires
            self.well_formed(),
            self.accepts(state),
        ensures
            match result {
                Ok(list) => {
                    &&& self.action(state, symbols@, split, sites@) == ProductOutcome::<
                        Self::State,
                    >::Ok(local::transitions_view(list@))
                    &&& forall|i: int|
                        0 <= i < list.len() ==> self.accepts((#[trigger] list[i]).state)
                },
                Err(error) => {
                    &&& self.action(state, symbols@, split, sites@) is Err
                    &&& local::reports(
                        error,
                        self.action(state, symbols@, split, sites@)->Err_0,
                    )
                },
            },
    ;

    fn transition_orbit_size(&self, state: Self::State) -> (result: Result<usize>)
        requires
            self.well_formed(),
        ensures
            match result {
                Ok(size) => size == self.orbit_weight(state) && (self.orbit_reduced()
                    ==> self.listed().contains(state)),
                Err(error) => error is StateNotInBasis && self.orbit_reduced()
                    && !self.listed().contains(state),
            },
    ;

    fn is_orbit_reduced(&self) -> (reduced: bool)
        requires
            self.well_formed(),
        ensures
            reduced == self.orbit_reduced(),
    ;

    /// Operator strings have to hold exactly one separator.
    spec fn two_parts(&self) -> bool;

    fn needs_separator(&self) -> (needed: bool)
        ensures
            needed == self.two_parts(),
    ;

    /// Whether an operator string keeps the particle sector of the basis.
    spec fn preservation(&self, operator: Seq<char>) -> std::result::Result<bool, Fault>;

    fn operator_preserves_particle_sector(&self, operator: &str) -> (result: Result<bool>)
        requires
            self.well_formed(),
            operator@.len() <= i32::MAX,
        ensures
            match result {
                Ok(kept) => self.preservation(operator@) == std::result::Result::<
                    bool,
                    Fault,
                >::Ok(kept),
                Err(error) => self.preservation(operator@) is Err && local::reports(
                    error,
                    self.preservation(operator@)->Err_0,
                ),
            },
    ;

    /// The row and reduction factor of a state reached from a source orbit.
    fn index_transition(&self, state: Self::State, source_orbit_size: usize) -> (result: Option<
        Landing,
    >)
        requires
            self.well_formed(),
        ensures
            result == self.landing(state, source_orbit_size),
            result matches Some(landing) ==> landing.index < self.listed().len(),
    ;
}

/// The state found in the place of a listed state is that state, and where no state is
/// listed twice, looking up the state in place `i` gives back `i`.
pub proof fn lookup_inverts_listing<B: Basis>(basis: &B, i: int, state: B::State)
    requires
        basis.well_formed(),
        0 <= i < basis.listed().len(),
        basis.listed().contains(state),
    ensures
        basis.listed()[basis.seat(state)] == state,
        basis.distinct() ==> basis.seat(basis.listed()[i]) == i,
{
    basis.lemma_seat(state);
    let list = basis.listed();
    assert(list.contains(list[i]));
    basis.lemma_seat(list[i]);
    if basis.distinct() {
        basis.lemma_distinct();
    }
}

/// The last place of a state in a list, less than nothing where it is not listed.
pub open spec fn last_place<S>(list: Seq<S>, state: S) -> int
    decreases list.len(),
{
    if list.len() == 0 {
        -1
    } else if list.last() == state {
        list.len() - 1
    } else {
        last_place(list.drop_last(), state)
    }
}

pub proof fn lemma_last_place<S>(list: Seq<S>, state: S)
    ensures
        -1 <= last_place(list, state) < list.len(),
        last_place(list, state) >= 0 ==> list[last_place(list, state)] == state,
        list.contains(state) <==> last_place(list, state) >= 0,
    decreases list.len(),
{
    if list.len() > 0 {
        lemma_last_place(list.drop_last(), state);
        if list.contains(state) && list.last() != state {
            let k = list.index_of(state);
            assert(list.drop_last()[k] == state);
        }
        if last_place(list, state) >= 0 {
            assert(list[last_place(list, state)] == state);
        }
    }
}

/// Every state of a list without repetitions stands in one place.
pub proof fn lemma_one_place<S>(list: Seq<S>, at: int)
    requires
        list.no_duplicates(),
        0 <= at < list.len(),
    ensures
        list.contains(list[at]),
        list.index_of(list[at]) == at,
{
    assert(list.contains(list[at]));
    assert(list[list.index_of(list[at])] == list[at]);
}

/// The outcomes whose states land in the basis, each with its reduction factor and
/// moved to the basis state that it stands for.
pub open spec fn reduced_list<B: Basis>(
    basis: &B,
    list: Seq<(B::State, Seq<Factor>)>,
    source_orbit: usize,
) -> Seq<(B::State, Seq<Factor>)>
    decreases list.len(),
{
    if list.len() == 0 {
        Seq::empty()
    } else {
        let front = reduced_list(basis, list.drop_last(), source_orbit);
        let (state, factors) = list.last();
        match basis.landing(state, source_orbit) {
            Some(landing) => front.push(
                (
                    basis.listed()[landing.index as int],
                    factors.push(Factor::Orbit(landing.reduction)),
                ),
            ),
            None => front,
        }
    }
}

/// What an operator product does to a state, between basis states where those stand
/// for orbits.
pub open spec fn local_action<B: Basis>(
    basis: &B,
    state: B::State,
    symbols: Seq<char>,
    split: Option<usize>,
    sites: Seq<usize>,
) -> ProductOutcome<B::State> {
    match basis.action(state, symbols, split, sites) {
        Err(fault) => Err(fault),
        Ok(list) => if !basis.orbit_reduced() {
            Ok(list)
        } else if !basis.listed().contains(state) {
            Err(Fault::Outside)
        } else {
            Ok(reduced_list(basis, list, basis.orbit_weight(state) as usize))
        },
    }
}

/// Applies an operator product to a state, between basis states where those stand
/// for orbits. Contributions to the same state stand side by side, in the order in
/// which the product branches.
pub fn apply_local_transitions<B: Basis>(
    basis: &B,
    state: B::State,
    symbols: &[char],
    split: Option<usize>,
    sites: &[usize],
) -> (result: Result<Vec<Transition<B::State>>>)
    requires
        basis.well_formed(),
        basis.accepts(state),
    ensures
        match result {
            Ok(list) => {
                &&& local_action(basis, state, symbols@, split, sites@) == ProductOutcome::<
                    B::State,
                >::Ok(local::transitions_view(list@))
                &&& forall|i: int|
                    0 <= i < list.len() ==> basis.accepts((#[trigger] list[i]).state)
            },
            Err(error) => {
                &&& local_action(basis, state, symbols@, split, sites@) is Err
                &&& local::reports(
                    error,
                    local_action(basis, state, symbols@, split, sites@)->Err_0,
                )
            },
        },
{
    let branches: Vec<Transition<B::State>> = match basis.unreduced_transitions(
        state,
        symbols,
        split,
        sites,
    ) {
        Ok(list) => list,
        Err(error) => {
            return Err(error);
        },
    };
    if !basis.is_orbit_reduced() {
        return Ok(branches);
    }
    let source_orbit: usize = match basis.transition_orbit_size(state) {
        Ok(size) => size,
        Err(error) => {
            return Err(error);
        },
    };
    let ghost all = local::transitions_view(branches@);
    let mut found: Vec<Transition<B::State>> = Vec::new();
    let mut position: usize = 0;
    proof {
        assert(local::transitions_view(found@) =~= Seq::empty());
        assert(all.subrange(0, 0) =~= Seq::empty());
    }
    while position < branches.len()
        invariant
            basis.well_formed(),
            all == local::transitions_view(branches@),
            position <= branches.len(),
            local::transitions_view(found@) == reduced_list(
                basis,
                all.subrange(0, position as int),
                source_orbit,
            ),
            forall|i: int| 0 <= i < found.len() ==> basis.accepts((#[trigger] found[i]).state),
        decreases branches.len() - position,
    {
        let ghost earlier = found@;
        assert(all.subrange(0, position + 1).drop_last() =~= all.subrange(0, position as int));
        if let Some(landing) = basis.index_transition(branches[position].state, source_orbit) {
            if let Ok(target) = basis.state(landing.index) {
                let mut factors: Vec<Factor> = local::copy_factors(&branches[position].factors);
                factors.push(Factor::Orbit(landing.reduction));
                found.push(Transition { state: target, factors });
                assert(local::transitions_view(found@) =~= local::transitions_view(earlier).push(
                    (target, factors@),
                ));
            }
        }
        position = position + 1;
    }
    assert(all.subrange(0, position as int) =~= all);
    Ok(found)
}

} // verus!
