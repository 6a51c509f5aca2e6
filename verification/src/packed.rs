//! A packed basis that is chosen at run time.

use vstd::prelude::*;
use crate::basis::{Basis, Landing};
use crate::boson::BosonBasis1D;
use crate::error::{QmbedError, Result};
use crate::fermion::SpinlessFermionBasis1D;
use crate::general::GeneralBasis;
use crate::local::{Fault, ProductOutcome, Transition};
use crate::spin::SpinBasis1D;
use crate::spinful::SpinfulFermionBasis1D;

verus! {

/// The bases with packed states.
#[derive(Debug)]
pub enum PackedKind {
    Spin(SpinBasis1D),
    Boson(BosonBasis1D),
    SpinlessFermion(SpinlessFermionBasis1D),
    SpinfulFermion(SpinfulFermionBasis1D),
    GeneralSpin(GeneralBasis<SpinBasis1D>),
    GeneralBoson(GeneralBasis<BosonBasis1D>),
    GeneralSpinlessFermion(GeneralBasis<SpinlessFermionBasis1D>),
    GeneralSpinfulFermion(GeneralBasis<SpinfulFermionBasis1D>),
}

impl Basis for PackedKind {
    type State = u128;

    open spec fn well_formed(&self) -> bool {
        match self {
            PackedKind::Spin(inner) => inner.well_formed(),
            PackedKind::Boson(inner) => inner.well_formed(),
            PackedKind::SpinlessFermion(inner) => inner.well_formed(),
            PackedKind::SpinfulFermion(inner) => inner.well_formed(),
            PackedKind::GeneralSpin(inner) => inner.well_formed(),
            PackedKind::GeneralBoson(inner) => inner.well_formed(),
            PackedKind::GeneralSpinlessFermion(inner) => inner.well_formed(),
            PackedKind::GeneralSpinfulFermion(inner) => inner.well_formed(),
        }
    }

    open spec fn listed(&self) -> Seq<u128> {
        match self {
            PackedKind::Spin(inner) => inner.listed(),
            PackedKind::Boson(inner) => inner.listed(),
            PackedKind::SpinlessFermion(inner) => inner.listed(),
            PackedKind::SpinfulFermion(inner) => inner.listed(),
            PackedKind::GeneralSpin(inner) => inner.listed(),
            PackedKind::GeneralBoson(inner) => inner.listed(),
            PackedKind::GeneralSpinlessFermion(inner) => inner.listed(),
            PackedKind::GeneralSpinfulFermion(inner) => inner.listed(),
        }
    }

    open spec fn accepts(&self, state: u128) -> bool {
        match self {
            PackedKind::Spin(inner) => inner.accepts(state),
            PackedKind::Boson(inner) => inner.accepts(state),
            PackedKind::SpinlessFermion(inner) => inner.accepts(state),
            PackedKind::SpinfulFermion(inner) => inner.accepts(state),
            PackedKind::GeneralSpin(inner) => inner.accepts(state),
            PackedKind::GeneralBoson(inner) => inner.accepts(state),
            PackedKind::GeneralSpinlessFermion(inner) => inner.accepts(state),
            PackedKind::GeneralSpinfulFermion(inner) => inner.accepts(state),
        }
    }

    open spec fn action(
        &self,
        state: u128,
        symbols: Seq<char>,
        split: Option<usize>,
        sites: Seq<usize>,
    ) -> ProductOutcome<u128> {
        match self {
            PackedKind::Spin(inner) => inner.action(state, symbols, split, sites),
            PackedKind::Boson(inner) => inner.action(state, symbols, split, sites),
            PackedKind::SpinlessFermion(inner) => inner.action(state, symbols, split, sites),
            PackedKind::SpinfulFermion(inner) => inner.action(state, symbols, split, sites),
            PackedKind::GeneralSpin(inner) => inner.action(state, symbols, split, sites),
            PackedKind::GeneralBoson(inner) => inner.action(state, symbols, split, sites),
            PackedKind::GeneralSpinlessFermion(inner) => inner.action(state, symbols, split, sites),
            PackedKind::GeneralSpinfulFermion(inner) => inner.action(state, symbols, split, sites),
        }
    }

    open spec fn distinct(&self) -> bool {
        match self {
            PackedKind::Spin(inner) => inner.distinct(),
            PackedKind::Boson(inner) => inner.distinct(),
            PackedKind::SpinlessFermion(inner) => inner.distinct(),
            PackedKind::SpinfulFermion(inner) => inner.distinct(),
            PackedKind::GeneralSpin(inner) => inner.distinct(),
            PackedKind::GeneralBoson(inner) => inner.distinct(),
            PackedKind::GeneralSpinlessFermion(inner) => inner.distinct(),
            PackedKind::GeneralSpinfulFermion(inner) => inner.distinct(),
        }
    }

    open spec fn seat(&self, state: u128) -> int {
        match self {
            PackedKind::Spin(inner) => inner.seat(state),
            PackedKind::Boson(inner) => inner.seat(state),
            PackedKind::SpinlessFermion(inner) => inner.seat(state),
            PackedKind::SpinfulFermion(inner) => inner.seat(state),
            PackedKind::GeneralSpin(inner) => inner.seat(state),
            PackedKind::GeneralBoson(inner) => inner.seat(state),
            PackedKind::GeneralSpinlessFermion(inner) => inner.seat(state),
            PackedKind::GeneralSpinfulFermion(inner) => inner.seat(state),
        }
    }

    proof fn lemma_seat(&self, state: u128) {
        match self {
            PackedKind::Spin(inner) => inner.lemma_seat(state),
            PackedKind::Boson(inner) => inner.lemma_seat(state),
            PackedKind::SpinlessFermion(inner) => inner.lemma_seat(state),
            PackedKind::SpinfulFermion(inner) => inner.lemma_seat(state),
            PackedKind::GeneralSpin(inner) => inner.lemma_seat(state),
            PackedKind::GeneralBoson(inner) => inner.lemma_seat(state),
            PackedKind::GeneralSpinlessFermion(inner) => inner.lemma_seat(state),
            PackedKind::GeneralSpinfulFermion(inner) => inner.lemma_seat(state),
        }
    }

    proof fn lemma_distinct(&self) {
        match self {
            PackedKind::Spin(inner) => inner.lemma_distinct(),
            PackedKind::Boson(inner) => inner.lemma_distinct(),
            PackedKind::SpinlessFermion(inner) => inner.lemma_distinct(),
            PackedKind::SpinfulFermion(inner) => inner.lemma_distinct(),
            PackedKind::GeneralSpin(inner) => inner.lemma_distinct(),
            PackedKind::GeneralBoson(inner) => inner.lemma_distinct(),
            PackedKind::GeneralSpinlessFermion(inner) => inner.lemma_distinct(),
            PackedKind::GeneralSpinfulFermion(inner) => inner.lemma_distinct(),
        }
    }

    open spec fn orbit_weight(&self, state: u128) -> nat {
        match self {
            PackedKind::Spin(inner) => inner.orbit_weight(state),
            PackedKind::Boson(inner) => inner.orbit_weight(state),
            PackedKind::SpinlessFermion(inner) => inner.orbit_weight(state),
            PackedKind::SpinfulFermion(inner) => inner.orbit_weight(state),
            PackedKind::GeneralSpin(inner) => inner.orbit_weight(state),
            PackedKind::GeneralBoson(inner) => inner.orbit_weight(state),
            PackedKind::GeneralSpinlessFermion(inner) => inner.orbit_weight(state),
            PackedKind::GeneralSpinfulFermion(inner) => inner.orbit_weight(state),
        }
    }

    open spec fn landing(&self, state: u128, source_orbit: usize) -> Option<Landing> {
        match self {
            PackedKind::Spin(inner) => inner.landing(state, source_orbit),
            PackedKind::Boson(inner) => inner.landing(state, source_orbit),
            PackedKind::SpinlessFermion(inner) => inner.landing(state, source_orbit),
            PackedKind::SpinfulFermion(inner) => inner.landing(state, source_orbit),
            PackedKind::GeneralSpin(inner) => inner.landing(state, source_orbit),
            PackedKind::GeneralBoson(inner) => inner.landing(state, source_orbit),
            PackedKind::GeneralSpinlessFermion(inner) => inner.landing(state, source_orbit),
            PackedKind::GeneralSpinfulFermion(inner) => inner.landing(state, source_orbit),
        }
    }

    open spec fn orbit_reduced(&self) -> bool {
        match self {
            PackedKind::Spin(inner) => inner.orbit_reduced(),
            PackedKind::Boson(inner) => inner.orbit_reduced(),
            PackedKind::SpinlessFermion(inner) => inner.orbit_reduced(),
            PackedKind::SpinfulFermion(inner) => inner.orbit_reduced(),
            PackedKind::GeneralSpin(inner) => inner.orbit_reduced(),
            PackedKind::GeneralBoson(inner) => inner.orbit_reduced(),
            PackedKind::GeneralSpinlessFermion(inner) => inner.orbit_reduced(),
            PackedKind::GeneralSpinfulFermion(inner) => inner.orbit_reduced(),
        }
    }

    open spec fn two_parts(&self) -> bool {
        match self {
            PackedKind::Spin(inner) => inner.two_parts(),
            PackedKind::Boson(inner) => inner.two_parts(),
            PackedKind::SpinlessFermion(inner) => inner.two_parts(),
            PackedKind::SpinfulFermion(inner) => inner.two_parts(),
            PackedKind::GeneralSpin(inner) => inner.two_parts(),
            PackedKind::GeneralBoson(inner) => inner.two_parts(),
            PackedKind::GeneralSpinlessFermion(inner) => inner.two_parts(),
            PackedKind::GeneralSpinfulFermion(inner) => inner.two_parts(),
        }
    }

    open spec fn preservation(&self, operator: Seq<char>) -> std::result::Result<bool, Fault> {
        match self {
            PackedKind::Spin(inner) => inner.preservation(operator),
            PackedKind::Boson(inner) => inner.preservation(operator),
            PackedKind::SpinlessFermion(inner) => inner.preservation(operator),
            PackedKind::SpinfulFermion(inner) => inner.preservation(operator),
            PackedKind::GeneralSpin(inner) => inner.preservation(operator),
            PackedKind::GeneralBoson(inner) => inner.preservation(operator),
            PackedKind::GeneralSpinlessFermion(inner) => inner.preservation(operator),
            PackedKind::GeneralSpinfulFermion(inner) => inner.preservation(operator),
        }
    }

    fn len(&self) -> (length: usize) {
        match self {
            PackedKind::Spin(inner) => inner.len(),
            PackedKind::Boson(inner) => inner.len(),
            PackedKind::SpinlessFermion(inner) => inner.len(),
            PackedKind::SpinfulFermion(inner) => inner.len(),
            PackedKind::GeneralSpin(inner) => inner.len(),
            PackedKind::GeneralBoson(inner) => inner.len(),
            PackedKind::GeneralSpinlessFermion(inner) => inner.len(),
            PackedKind::GeneralSpinfulFermion(inner) => inner.len(),
        }
    }

    fn state(&self, index: usize) -> (result: Result<u128>) {
        match self {
            PackedKind::Spin(inner) => inner.state(index),
            PackedKind::Boson(inner) => inner.state(index),
            PackedKind::SpinlessFermion(inner) => inner.state(index),
            PackedKind::SpinfulFermion(inner) => inner.state(index),
            PackedKind::GeneralSpin(inner) => inner.state(index),
            PackedKind::GeneralBoson(inner) => inner.state(index),
            PackedKind::GeneralSpinlessFermion(inner) => inner.state(index),
            PackedKind::GeneralSpinfulFermion(inner) => inner.state(index),
        }
    }

    fn index(&self, state: u128) -> (result: Result<usize>) {
        match self {
            PackedKind::Spin(inner) => inner.index(state),
            PackedKind::Boson(inner) => inner.index(state),
            PackedKind::SpinlessFermion(inner) => inner.index(state),
            PackedKind::SpinfulFermion(inner) => inner.index(state),
            PackedKind::GeneralSpin(inner) => inner.index(state),
            PackedKind::GeneralBoson(inner) => inner.index(state),
            PackedKind::GeneralSpinlessFermion(inner) => inner.index(state),
            PackedKind::GeneralSpinfulFermion(inner) => inner.index(state),
        }
    }

    fn unreduced_transitions(
        &self,
        state: u128,
        symbols: &[char],
        split: Option<usize>,
        sites: &[usize],
    ) -> (result: Result<Vec<Transition<u128>>>) {
        match self {
            PackedKind::Spin(inner) => inner.unreduced_transitions(state, symbols, split, sites),
            PackedKind::Boson(inner) => inner.unreduced_transitions(state, symbols, split, sites),
            PackedKind::SpinlessFermion(inner) => inner.unreduced_transitions(state, symbols, split, sites),
            PackedKind::SpinfulFermion(inner) => inner.unreduced_transitions(state, symbols, split, sites),
            PackedKind::GeneralSpin(inner) => inner.unreduced_transitions(state, symbols, split, sites),
            PackedKind::GeneralBoson(inner) => inner.unreduced_transitions(state, symbols, split, sites),
            PackedKind::GeneralSpinlessFermion(inner) => inner.unreduced_transitions(state, symbols, split, sites),
            PackedKind::GeneralSpinfulFermion(inner) => inner.unreduced_transitions(state, symbols, split, sites),
        }
    }

    fn transition_orbit_size(&self, state: u128) -> (result: Result<usize>) {
        match self {
            PackedKind::Spin(inner) => inner.transition_orbit_size(state),
            PackedKind::Boson(inner) => inner.transition_orbit_size(state),
            PackedKind::SpinlessFermion(inner) => inner.transition_orbit_size(state),
            PackedKind::SpinfulFermion(inner) => inner.transition_orbit_size(state),
            PackedKind::GeneralSpin(inner) => inner.transition_orbit_size(state),
            PackedKind::GeneralBoson(inner) => inner.transition_orbit_size(state),
            PackedKind::GeneralSpinlessFermion(inner) => inner.transition_orbit_size(state),
            PackedKind::GeneralSpinfulFermion(inner) => inner.transition_orbit_size(state),
        }
    }

    fn is_orbit_reduced(&self) -> (reduced: bool) {
        match self {
            PackedKind::Spin(inner) => inner.is_orbit_reduced(),
            PackedKind::Boson(inner) => inner.is_orbit_reduced(),
            PackedKind::SpinlessFermion(inner) => inner.is_orbit_reduced(),
            PackedKind::SpinfulFermion(inner) => inner.is_orbit_reduced(),
            PackedKind::GeneralSpin(inner) => inner.is_orbit_reduced(),
            PackedKind::GeneralBoson(inner) => inner.is_orbit_reduced(),
            PackedKind::GeneralSpinlessFermion(inner) => inner.is_orbit_reduced(),
            PackedKind::GeneralSpinfulFermion(inner) => inner.is_orbit_reduced(),
        }
    }

    fn needs_separator(&self) -> (needed: bool) {
        match self {
            PackedKind::Spin(inner) => inner.needs_separator(),
            PackedKind::Boson(inner) => inner.needs_separator(),
            PackedKind::SpinlessFermion(inner) => inner.needs_separator(),
            PackedKind::SpinfulFermion(inner) => inner.needs_separator(),
            PackedKind::GeneralSpin(inner) => inner.needs_separator(),
            PackedKind::GeneralBoson(inner) => inner.needs_separator(),
            PackedKind::GeneralSpinlessFermion(inner) => inner.needs_separator(),
            PackedKind::GeneralSpinfulFermion(inner) => inner.needs_separator(),
        }
    }

    fn operator_preserves_particle_sector(&self, operator: &str) -> (result: Result<bool>) {
        match self {
            PackedKind::Spin(inner) => inner.operator_preserves_particle_sector(operator),
            PackedKind::Boson(inner) => inner.operator_preserves_particle_sector(operator),
            PackedKind::SpinlessFermion(inner) => inner.operator_preserves_particle_sector(operator),
            PackedKind::SpinfulFermion(inner) => inner.operator_preserves_particle_sector(operator),
            PackedKind::GeneralSpin(inner) => inner.operator_preserves_particle_sector(operator),
            PackedKind::GeneralBoson(inner) => inner.operator_preserves_particle_sector(operator),
            PackedKind::GeneralSpinlessFermion(inner) => inner.operator_preserves_particle_sector(operator),
            PackedKind::GeneralSpinfulFermion(inner) => inner.operator_preserves_particle_sector(operator),
        }
    }

    fn index_transition(&self, state: u128, source_orbit_size: usize) -> (result: Option<Landing>) {
        match self {
            PackedKind::Spin(inner) => inner.index_transition(state, source_orbit_size),
            PackedKind::Boson(inner) => inner.index_transition(state, source_orbit_size),
            PackedKind::SpinlessFermion(inner) => inner.index_transition(state, source_orbit_size),
            PackedKind::SpinfulFermion(inner) => inner.index_transition(state, source_orbit_size),
            PackedKind::GeneralSpin(inner) => inner.index_transition(state, source_orbit_size),
            PackedKind::GeneralBoson(inner) => inner.index_transition(state, source_orbit_size),
            PackedKind::GeneralSpinlessFermion(inner) => inner.index_transition(state, source_orbit_size),
            PackedKind::GeneralSpinfulFermion(inner) => inner.index_transition(state, source_orbit_size),
        }
    }
}

/// A basis with packed states, in its own order or in the reversed one.
#[derive(Debug)]
pub struct PackedBasis {
    pub kind: PackedKind,
    pub backwards: bool,
}

impl PackedBasis {
    /// The same states in the opposite order.
    pub fn reversed(self) -> (basis: PackedBasis)
        ensures
            basis.kind == self.kind,
            basis.backwards == !self.backwards,
    {
        PackedBasis { kind: self.kind, backwards: !self.backwards }
    }

    /// The place of an entry in the order of this basis.
    pub open spec fn turned(&self, index: usize) -> usize {
        if self.backwards {
            (self.kind.listed().len() - 1 - index) as usize
        } else {
            index
        }
    }
}

/// Reversing a basis twice gives it back, and a reversed basis lists the states in the
/// opposite order.
pub proof fn reversal_involution(first: PackedBasis, second: PackedBasis, third: PackedBasis)
    requires
        second.kind == first.kind,
        second.backwards == !first.backwards,
        third.kind == second.kind,
        third.backwards == !second.backwards,
    ensures
        third == first,
        second.listed() == first.listed().reverse(),
{
    assert(first.kind.listed().reverse().reverse() =~= first.kind.listed());
}

impl Basis for PackedBasis {
    type State = u128;

    open spec fn well_formed(&self) -> bool {
        self.kind.well_formed()
    }

    open spec fn listed(&self) -> Seq<u128> {
        if self.backwards {
            self.kind.listed().reverse()
        } else {
            self.kind.listed()
        }
    }

    open spec fn accepts(&self, state: u128) -> bool {
        self.kind.accepts(state)
    }

    open spec fn action(
        &self,
        state: u128,
        symbols: Seq<char>,
        split: Option<usize>,
        sites: Seq<usize>,
    ) -> ProductOutcome<u128> {
        self.kind.action(state, symbols, split, sites)
    }

    open spec fn distinct(&self) -> bool {
        self.kind.distinct()
    }

    open spec fn seat(&self, state: u128) -> int {
        if self.backwards {
            self.kind.listed().len() - 1 - self.kind.seat(state)
        } else {
            self.kind.seat(state)
        }
    }

    proof fn lemma_seat(&self, state: u128) {
        lemma_reverse_contains(self.kind.listed(), state);
        self.kind.lemma_seat(state);
    }

    proof fn lemma_distinct(&self) {
        self.kind.lemma_distinct();
        let list = self.kind.listed();
        assert forall|i: int, j: int|
            0 <= i < list.len() && 0 <= j < list.len() && i != j implies list.reverse()[i]
            != list.reverse()[j] by {
            assert(list.reverse()[i] == list[list.len() - 1 - i]);
            assert(list.reverse()[j] == list[list.len() - 1 - j]);
        }
    }

    open spec fn orbit_weight(&self, state: u128) -> nat {
        self.kind.orbit_weight(state)
    }

    open spec fn landing(&self, state: u128, source_orbit: usize) -> Option<Landing> {
        match self.kind.landing(state, source_orbit) {
            Some(landing) => Some(
                Landing { index: self.turned(landing.index), reduction: landing.reduction },
            ),
            None => None,
        }
    }

    open spec fn orbit_reduced(&self) -> bool {
        self.kind.orbit_reduced()
    }

    open spec fn two_parts(&self) -> bool {
        self.kind.two_parts()
    }

    open spec fn preservation(&self, operator: Seq<char>) -> std::result::Result<bool, Fault> {
        self.kind.preservation(operator)
    }

    fn len(&self) -> (length: usize) {
        self.kind.len()
    }

    fn state(&self, index: usize) -> (result: Result<u128>) {
        let length: usize = self.kind.len();
        if index >= length {
            return Err(QmbedError::StateNotInBasis);
        }
        if self.backwards {
            self.kind.state(length - 1 - index)
        } else {
            self.kind.state(index)
        }
    }

    fn index(&self, state: u128) -> (result: Result<usize>) {
        let length: usize = self.kind.len();
        let ghost list = self.kind.listed();
        match self.kind.index(state) {
            Ok(place) => if self.backwards {
                Ok(length - 1 - place)
            } else {
                Ok(place)
            },
            Err(error) => {
                proof {
                    lemma_reverse_contains(list, state);
                }
                Err(error)
            },
        }
    }

    fn unreduced_transitions(
        &self,
        state: u128,
        symbols: &[char],
        split: Option<usize>,
        sites: &[usize],
    ) -> (result: Result<Vec<Transition<u128>>>) {
        self.kind.unreduced_transitions(state, symbols, split, sites)
    }

    fn transition_orbit_size(&self, state: u128) -> (result: Result<usize>) {
        proof {
            lemma_reverse_contains(self.kind.listed(), state);
        }
        self.kind.transition_orbit_size(state)
    }

    fn is_orbit_reduced(&self) -> (reduced: bool) {
        self.kind.is_orbit_reduced()
    }

    fn needs_separator(&self) -> (needed: bool) {
        self.kind.needs_separator()
    }

    fn operator_preserves_particle_sector(&self, operator: &str) -> (result: Result<bool>) {
        self.kind.operator_preserves_particle_sector(operator)
    }

    fn index_transition(&self, state: u128, source_orbit_size: usize) -> (result: Option<Landing>) {
        let length: usize = self.kind.len();
        match self.kind.index_transition(state, source_orbit_size) {
            Some(landing) => if self.backwards {
                Some(
                    Landing { index: length - 1 - landing.index, reduction: landing.reduction },
                )
            } else {
                Some(landing)
            },
            None => None,
        }
    }
}

proof fn lemma_reverse_contains(list: Seq<u128>, state: u128)
    ensures
        list.reverse().contains(state) == list.contains(state),
{
    if list.contains(state) {
        let i = list.index_of(state);
        assert(list.reverse()[list.len() - 1 - i] == state);
    }
    if list.reverse().contains(state) {
        let i = list.reverse().index_of(state);
        assert(list.reverse()[i] == state);
        assert(list[list.len() - 1 - i] == state);
    }
}

impl From<SpinBasis1D> for PackedBasis {
    fn from(basis: SpinBasis1D) -> (packed: Self) {
        PackedBasis { kind: PackedKind::Spin(basis), backwards: false }
    }
}

impl vstd::std_specs::convert::FromSpecImpl<SpinBasis1D> for PackedBasis {
    open spec fn obeys_from_spec() -> bool {
        true
    }

    open spec fn from_spec(basis: SpinBasis1D) -> Self {
        PackedBasis { kind: PackedKind::Spin(basis), backwards: false }
    }
}

impl From<BosonBasis1D> for PackedBasis {
    fn from(basis: BosonBasis1D) -> (packed: Self) {
        PackedBasis { kind: PackedKind::Boson(basis), backwards: false }
    }
}

impl vstd::std_specs::convert::FromSpecImpl<BosonBasis1D> for PackedBasis {
    open spec fn obeys_from_spec() -> bool {
        true
    }

    open spec fn from_spec(basis: BosonBasis1D) -> Self {
        PackedBasis { kind: PackedKind::Boson(basis), backwards: false }
    }
}

impl From<SpinlessFermionBasis1D> for PackedBasis {
    fn from(basis: SpinlessFermionBasis1D) -> (packed: Self) {
        PackedBasis { kind: PackedKind::SpinlessFermion(basis), backwards: false }
    }
}

impl vstd::std_specs::convert::FromSpecImpl<SpinlessFermionBasis1D> for PackedBasis {
    open spec fn obeys_from_spec() -> bool {
        true
    }

    open spec fn from_spec(basis: SpinlessFermionBasis1D) -> Self {
        PackedBasis { kind: PackedKind::SpinlessFermion(basis), backwards: false }
    }
}

impl From<SpinfulFermionBasis1D> for PackedBasis {
    fn from(basis: SpinfulFermionBasis1D) -> (packed: Self) {
        PackedBasis { kind: PackedKind::SpinfulFermion(basis), backwards: false }
    }
}

impl vstd::std_specs::convert::FromSpecImpl<SpinfulFermionBasis1D> for PackedBasis {
    open spec fn obeys_from_spec() -> bool {
        true
    }

    open spec fn from_spec(basis: SpinfulFermionBasis1D) -> Self {
        PackedBasis { kind: PackedKind::SpinfulFermion(basis), backwards: false }
    }
}

impl From<GeneralBasis<SpinBasis1D>> for PackedBasis {
    fn from(basis: GeneralBasis<SpinBasis1D>) -> (packed: Self) {
        PackedBasis { kind: PackedKind::GeneralSpin(basis), backwards: false }
    }
}

impl vstd::std_specs::convert::FromSpecImpl<GeneralBasis<SpinBasis1D>> for PackedBasis {
    open spec fn obeys_from_spec() -> bool {
        true
    }

    open spec fn from_spec(basis: GeneralBasis<SpinBasis1D>) -> Self {
        PackedBasis { kind: PackedKind::GeneralSpin(basis), backwards: false }
    }
}

impl From<GeneralBasis<BosonBasis1D>> for PackedBasis {
    fn from(basis: GeneralBasis<BosonBasis1D>) -> (packed: Self) {
        PackedBasis { kind: PackedKind::GeneralBoson(basis), backwards: false }
    }
}

impl vstd::std_specs::convert::FromSpecImpl<GeneralBasis<BosonBasis1D>> for PackedBasis {
    open spec fn obeys_from_spec() -> bool {
        true
    }

    open spec fn from_spec(basis: GeneralBasis<BosonBasis1D>) -> Self {
        PackedBasis { kind: PackedKind::GeneralBoson(basis), backwards: false }
    }
}

impl From<GeneralBasis<SpinlessFermionBasis1D>> for PackedBasis {
    fn from(basis: GeneralBasis<SpinlessFermionBasis1D>) -> (packed: Self) {
        PackedBasis { kind: PackedKind::GeneralSpinlessFermion(basis), backwards: false }
    }
}

impl vstd::std_specs::convert::FromSpecImpl<GeneralBasis<SpinlessFermionBasis1D>> for PackedBasis {
    open spec fn obeys_from_spec() -> bool {
        true
    }

    open spec fn from_spec(basis: GeneralBasis<SpinlessFermionBasis1D>) -> Self {
        PackedBasis { kind: PackedKind::GeneralSpinlessFermion(basis), backwards: false }
    }
}

impl From<GeneralBasis<SpinfulFermionBasis1D>> for PackedBasis {
    fn from(basis: GeneralBasis<SpinfulFermionBasis1D>) -> (packed: Self) {
        PackedBasis { kind: PackedKind::GeneralSpinfulFermion(basis), backwards: false }
    }
}

impl vstd::std_specs::convert::FromSpecImpl<GeneralBasis<SpinfulFermionBasis1D>> for PackedBasis {
    open spec fn obeys_from_spec() -> bool {
        true
    }

    open spec fn from_spec(basis: GeneralBasis<SpinfulFermionBasis1D>) -> Self {
        PackedBasis { kind: PackedKind::GeneralSpinfulFermion(basis), backwards: false }
    }
}

} // verus!
