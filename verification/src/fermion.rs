//! Spinless fermions on a ring: Jordan-Wigner signs and momentum sectors.

use vstd::prelude::*;
use vstd::arithmetic::div_mod::*;
use crate::basis::{Basis, Landing};
use crate::basis;
use crate::boson;
use crate::error::{QmbedError, Result};
use crate::local::{LocalAlgebra, LocalFactor, LocalOutcome, Move, ProductOutcome, Transition};
use crate::local;
use crate::radix;
use crate::spin;
use crate::states;
use crate::symmetry::{RingSector, RingSymmetry};
use crate::symmetry;

verus! {

/// The orbital is occupied.
pub open spec fn occupied(state: nat, orbital: nat) -> bool {
    radix::digit(state, 2, orbital) == 1
}

/// An odd number of particles sits on the orbitals below.
pub open spec fn odd_below(state: nat, orbital: nat) -> bool {
    radix::digit_sum(state, 2, orbital) % 2 == 1
}

/// A power of `i` as a factor.
pub open spec fn unit_factor(quarter_turns: u8) -> LocalFactor {
    LocalFactor { quarter_turns, numerator: 1, halved: false, radicand: 1 }
}

/// The Jordan-Wigner sign of an operator on the orbital.
pub open spec fn exchange_sign(state: nat, orbital: nat) -> LocalFactor {
    if odd_below(state, orbital) {
        unit_factor(2)
    } else {
        unit_factor(0)
    }
}

/// The state with the occupation of the orbital inverted.
pub open spec fn toggled(state: nat, orbital: nat) -> nat {
    if occupied(state, orbital) {
        (state - radix::place(2, orbital)) as nat
    } else {
        state + radix::place(2, orbital)
    }
}

/// What a fermion operator does to one orbital.
pub open spec fn fermion_moves(state: u128, orbital: nat, symbol: char) -> LocalOutcome<u128> {
    let s = state as nat;
    let full = occupied(s, orbital);
    let flipped = toggled(s, orbital) as u128;
    if symbol == 'I' {
        Ok(seq![(state, None)])
    } else if symbol == 'n' {
        if full {
            Ok(seq![(state, None)])
        } else {
            Ok(Seq::empty())
        }
    } else if symbol == 'z' {
        Ok(seq![(state, Some(unit_factor(if full { 0 } else { 2 })))])
    } else if symbol == '+' {
        if full {
            Ok(Seq::empty())
        } else {
            Ok(seq![(flipped, Some(exchange_sign(s, orbital)))])
        }
    } else if symbol == '-' {
        if full {
            Ok(seq![(flipped, Some(exchange_sign(s, orbital)))])
        } else {
            Ok(Seq::empty())
        }
    } else if symbol == 'x' {
        Ok(seq![(flipped, Some(exchange_sign(s, orbital)))])
    } else if symbol == 'y' {
        let turns: u8 = if full == odd_below(s, orbital) {
            3
        } else {
            1
        };
        Ok(seq![(flipped, Some(unit_factor(turns)))])
    } else {
        Err(local::Fault::Symbol)
    }
}

/// The parity of the number of ones on the lowest orbitals.
fn odd_ones(state: u128, orbitals: usize) -> (odd: bool)
    ensures
        odd == odd_below(state as nat, orbitals as nat),
{
    let ghost s = state as nat;
    let mut odd: bool = false;
    let mut remaining: u128 = state;
    let mut position: usize = 0;
    proof {
        assert(s / radix::place(2, 0) == s) by {
            lemma_div_basics(s as int);
        }
        assert(radix::digits(s, 2, 0) =~= Seq::<nat>::empty());
    }
    while position < orbitals
        invariant
            position <= orbitals,
            remaining == s / radix::place(2, position as nat),
            odd == odd_below(s, position as nat),
        decreases orbitals - position,
    {
        proof {
            radix::lemma_quotient_step(s, 2, position as nat);
            radix::lemma_digit_sum_extend(s, 2, position as nat);
        }
        if remaining % 2 == 1 {
            odd = !odd;
        }
        remaining = remaining / 2;
        position = position + 1;
    }
    odd
}

/// Inverting one orbital below the width of the encoding stays within it.
pub proof fn lemma_toggled_fits(state: u128, orbital: nat)
    requires
        orbital < 128,
    ensures
        toggled(state as nat, orbital) <= u128::MAX,
        occupied(state as nat, orbital) ==> radix::place(2, orbital) <= state,
        radix::place(2, orbital) <= u128::MAX,
        !occupied(state as nat, orbital) ==> radix::digit(state as nat, 2, orbital) == 0,
{
    let s = state as nat;
    states::lemma_power_of_two(128);
    radix::lemma_place_strict(2, orbital, 128);
    lemma_mod_bound((s / radix::place(2, orbital)) as int, 2);
    lemma_basic_div(s as int, radix::place(2, 128) as int);
    spin::lemma_lattice_state_encodable(state, 2, 128);
    if occupied(s, orbital) {
        radix::lemma_lower_digit(s, 2, orbital, 128);
    } else {
        radix::lemma_raise_digit(s, 2, orbital, 128);
        spin::lemma_block(state, s + radix::place(2, orbital), 2, 128);
    }
}

/// Applies a fermion operator to one orbital.
pub fn apply_fermion(state: u128, orbital: usize, symbol: char) -> (result: Result<
    Vec<Move<u128>>,
>)
    requires
        orbital < 128,
    ensures
        match result {
            Ok(moves) => fermion_moves(state, orbital as nat, symbol) == LocalOutcome::<u128>::Ok(
                local::moves_view(moves@),
            ) && moves.len() <= 1,
            Err(error) => fermion_moves(state, orbital as nat, symbol) == LocalOutcome::<
                u128,
            >::Err(local::Fault::Symbol) && error is InvalidOperator,
        },
{
    let ghost s = state as nat;
    proof {
        lemma_toggled_fits(state, orbital as nat);
        radix::lemma_place_positive(2, orbital as nat);
        states::lemma_power_of_two(orbital);
    }
    let place: u128 = 1u128 << (orbital as u32);
    let full: bool = (state / place) % 2 == 1;
    let flipped: u128 = if full {
        state - place
    } else {
        state + place
    };
    let ghost expected = fermion_moves(state, orbital as nat, symbol);
    let mut moves: Vec<Move<u128>> = Vec::new();
    if symbol == 'I' {
        moves.push(Move { state, factor: None });
    } else if symbol == 'n' {
        if full {
            moves.push(Move { state, factor: None });
        }
    } else if symbol == 'z' {
        let quarter_turns: u8 = if full {
            0
        } else {
            2
        };
        moves.push(
            Move {
                state,
                factor: Some(
                    LocalFactor { quarter_turns, numerator: 1, halved: false, radicand: 1 },
                ),
            },
        );
    } else if symbol == '+' || symbol == '-' || symbol == 'x' || symbol == 'y' {
        if !(symbol == '+' && full) && !(symbol == '-' && !full) {
            let odd: bool = odd_ones(state, orbital);
            let quarter_turns: u8 = if symbol == 'y' {
                if full == odd {
                    3
                } else {
                    1
                }
            } else if odd {
                2
            } else {
                0
            };
            moves.push(
                Move {
                    state: flipped,
                    factor: Some(
                        LocalFactor { quarter_turns, numerator: 1, halved: false, radicand: 1 },
                    ),
                },
            );
        }
    } else {
        return Err(QmbedError::InvalidOperator(symbol.to_string()));
    }
    assert(local::moves_view(moves@) =~= expected->Ok_0);
    Ok(moves)
}

/// Fermions without spin on a ring, with fixed particle number and momentum.
#[derive(Clone, Debug)]
pub struct SpinlessFermionBasis1D {
    sites: usize,
    particles: Option<usize>,
    sector: RingSector,
}

/// The selection of a fermion sector.
#[derive(Clone, Copy, Debug)]
pub struct SpinlessFermionBasisBuilder {
    pub sites: usize,
    pub particles: Option<usize>,
    pub momentum: Option<i32>,
}

impl SpinlessFermionBasis1D {
    pub closed spec fn spec_sites(self) -> usize {
        self.sites
    }

    pub closed spec fn spec_particles(self) -> Option<usize> {
        self.particles
    }

    pub closed spec fn spec_sector(self) -> RingSector {
        self.sector
    }

    pub open spec fn ring(self) -> RingSymmetry {
        RingSymmetry {
            sites: self.spec_sites(),
            base: 2,
            momentum: self.spec_sector().momentum,
            parity: None,
            fermionic: true,
        }
    }

    /// The basis lists exactly the selected sector.
    pub open spec fn wf(self) -> bool {
        &&& self.spec_sites() <= 128
        &&& if self.spec_sector().momentum is None {
            states::lists_sector(
                self.spec_sector().states@,
                2,
                self.spec_sites() as nat,
                self.spec_particles(),
            )
        } else {
            &&& self.ring().wf()
            &&& self.spec_sector().covers(self.ring(), self.spec_particles())
            &&& self.spec_sector().states.len() > 0
        }
    }

    /// The selection of a sector, by default all occupations of the ring.
    pub fn builder(sites: usize) -> (builder: SpinlessFermionBasisBuilder)
        ensures
            builder == (SpinlessFermionBasisBuilder { sites, particles: None, momentum: None }),
    {
        SpinlessFermionBasisBuilder { sites, particles: None, momentum: None }
    }

    pub fn sites(&self) -> (sites: usize)
        ensures
            sites == self.spec_sites(),
    {
        self.sites
    }

    pub fn particles(&self) -> (particles: Option<usize>)
        ensures
            particles == self.spec_particles(),
    {
        self.particles
    }

    pub fn momentum(&self) -> (momentum: Option<usize>)
        ensures
            momentum == self.ring().momentum,
    {
        self.sector.momentum
    }
}

impl SpinlessFermionBasisBuilder {
    pub fn particles(self, particles: usize) -> (builder: SpinlessFermionBasisBuilder)
        ensures
            builder == (SpinlessFermionBasisBuilder { particles: Some(particles), ..self }),
    {
        SpinlessFermionBasisBuilder { particles: Some(particles), ..self }
    }

    pub fn momentum(self, momentum: i32) -> (builder: SpinlessFermionBasisBuilder)
        ensures
            builder == (SpinlessFermionBasisBuilder { momentum: Some(momentum), ..self }),
    {
        SpinlessFermionBasisBuilder { momentum: Some(momentum), ..self }
    }

    /// The request goes beyond the `u128` encoding.
    pub open spec fn oversized(self) -> bool {
        self.sites > 128 || (self.particles is None && self.sites == 128)
    }

    /// No state belongs to the requested sector.
    pub open spec fn empty(self) -> bool {
        ||| self.particles is Some && self.particles->0 > self.sites
        ||| self.momentum is Some && (self.sites == 0 || forall|x: u128| #[trigger]
            states::in_sector(x, 2, self.sites as nat, self.particles)
                ==> !symmetry::fermion_symmetry(self.sites, self.momentum).survives(x as nat))
    }

    /// Builds the selected sector.
    pub fn build(self) -> (result: Result<SpinlessFermionBasis1D>)
        ensures
            match result {
                Ok(basis) => {
                    &&& !self.oversized()
                    &&& !self.empty()
                    &&& basis.wf()
                    &&& basis.spec_sites() == self.sites
                    &&& basis.spec_particles() == self.particles
                    &&& basis.ring() == symmetry::fermion_symmetry(self.sites, self.momentum)
                },
                Err(QmbedError::UnsupportedBackend(_)) => self.oversized(),
                Err(QmbedError::InvalidSector(_)) => !self.oversized() && self.empty(),
                Err(_) => false,
            },
    {
        let parent: Vec<u128> = match states::fixed_weight_states(self.sites, self.particles) {
            Ok(list) => list,
            Err(error) => {
                return Err(error);
            },
        };
        let ghost total = self.particles;
        assert(states::lists_sector(parent@, 2, self.sites as nat, total));
        proof {
            assert forall|x: u128|
                parent@.contains(x) <==> #[trigger] states::in_sector(
                    x,
                    2,
                    self.sites as nat,
                    self.particles,
                ) by {}
            let ring = symmetry::fermion_symmetry(self.sites, self.momentum);
            if self.sites > 0 && self.momentum is Some {
                states::lemma_power_of_two(self.sites);
                lemma_mod_bound(self.momentum->0 as int, self.sites as int);
                symmetry::sectors_are_closed(ring, parent@, total);
            }
        }
        let sector: RingSector = match symmetry::fermion_translation_sector(
            &parent,
            self.sites,
            self.momentum,
        ) {
            Ok(sector) => sector,
            Err(error) => {
                return Err(error);
            },
        };
        proof {
            if self.momentum is Some {
                let ring = symmetry::fermion_symmetry(self.sites, self.momentum);
                sector.lemma_covers(ring, parent@, total);
                states::lemma_power_of_two(self.sites);
                lemma_mod_bound(self.momentum->0 as int, self.sites as int);
                let x = sector.states@[0];
                assert(sector.states@.contains(x));
                assert(states::in_sector(x, 2, self.sites as nat, self.particles));
            }
        }
        Ok(SpinlessFermionBasis1D { sites: self.sites, particles: self.particles, sector })
    }
}

impl LocalAlgebra for SpinlessFermionBasis1D {
    type State = u128;

    open spec fn ready(&self) -> bool {
        self.spec_sites() <= 128
    }

    open spec fn valid_state(&self, state: u128) -> bool {
        true
    }

    open spec fn moves(
        &self,
        state: u128,
        symbol: char,
        position: nat,
        site: usize,
    ) -> LocalOutcome<u128> {
        if site >= self.spec_sites() {
            Err(local::Fault::Site { site, sites: self.spec_sites() })
        } else {
            fermion_moves(state, site as nat, symbol)
        }
    }

    fn apply_symbol(&self, state: u128, symbol: char, position: usize, site: usize) -> (result:
        Result<Vec<Move<u128>>>) {
        if site >= self.sites {
            return Err(QmbedError::InvalidSite { site, sites: self.sites });
        }
        apply_fermion(state, site, symbol)
    }
}

impl Basis for SpinlessFermionBasis1D {
    type State = u128;

    open spec fn well_formed(&self) -> bool {
        self.wf()
    }

    open spec fn listed(&self) -> Seq<u128> {
        self.spec_sector().states@
    }

    open spec fn accepts(&self, state: u128) -> bool {
        true
    }

    open spec fn action(
        &self,
        state: u128,
        symbols: Seq<char>,
        split: Option<usize>,
        sites: Seq<usize>,
    ) -> ProductOutcome<u128> {
        local::operator_action(self, state, symbols, sites)
    }

    open spec fn distinct(&self) -> bool {
        true
    }

    open spec fn seat(&self, state: u128) -> int {
        self.listed().index_of(state)
    }

    proof fn lemma_seat(&self, state: u128) {
    }

    proof fn lemma_distinct(&self) {
        assert(self.listed().no_duplicates()) by {
            let list = self.listed();
            assert forall|i: int, j: int|
                0 <= i < list.len() && 0 <= j < list.len() && i != j implies list[i] != list[j] by {
                if i < j {
                    assert(list[i] < list[j]);
                } else {
                    assert(list[j] < list[i]);
                }
            }
        }
    }

    open spec fn orbit_weight(&self, state: u128) -> nat {
        if self.spec_sector().momentum is None {
            1
        } else {
            self.ring().orbit(state as nat).len()
        }
    }

    open spec fn landing(&self, state: u128, source_orbit: usize) -> Option<Landing> {
        if self.spec_sector().momentum is None {
            boson::plain_landing(self.spec_sector().states@, state)
        } else {
            spin::ring_landing(self.spec_sector(), self.spec_sites(), state, source_orbit)
        }
    }

    open spec fn two_parts(&self) -> bool {
        false
    }

    fn needs_separator(&self) -> (needed: bool) {
        false
    }

    open spec fn orbit_reduced(&self) -> bool {
        self.spec_sector().momentum is Some
    }

    fn is_orbit_reduced(&self) -> (reduced: bool) {
        self.sector.momentum.is_some()
    }

    fn len(&self) -> (length: usize) {
        self.sector.states.len()
    }

    fn state(&self, index: usize) -> (result: Result<u128>) {
        if index < self.sector.states.len() {
            Ok(self.sector.states[index])
        } else {
            Err(QmbedError::StateNotInBasis)
        }
    }

    fn index(&self, state: u128) -> (result: Result<usize>) {
        let result: Result<usize> = states::state_index(&self.sector.states, state);
        proof {
            self.lemma_distinct();
            if let Ok(index) = &result {
                basis::lemma_one_place(self.listed(), *index as int);
            }
        }
        result
    }

    fn unreduced_transitions(
        &self,
        state: u128,
        symbols: &[char],
        split: Option<usize>,
        sites: &[usize],
    ) -> (result: Result<Vec<Transition<u128>>>) {
        local::apply_product(self, state, symbols, sites)
    }

    fn transition_orbit_size(&self, state: u128) -> (result: Result<usize>) {
        if self.sector.momentum.is_none() {
            return Ok(1);
        }
        match states::state_index(&self.sector.states, state) {
            Ok(index) => {
                assert(self.sector.states@[index as int] == state);
                Ok(self.sector.orbit_sizes[index])
            },
            Err(error) => Err(error),
        }
    }

    open spec fn preservation(&self, operator: Seq<char>) -> std::result::Result<bool, local::Fault> {
        basis::keeps_total(self.spec_particles() is Some, operator)
    }

    fn operator_preserves_particle_sector(&self, operator: &str) -> (result: Result<bool>) {
        basis::total_is_kept(self.particles.is_some(), operator)
    }

    fn index_transition(&self, state: u128, source_orbit_size: usize) -> (result: Option<
        Landing,
    >) {
        if self.sector.momentum.is_none() {
            return boson::find_plain_landing(&self.sector.states, state);
        }
        spin::find_ring_landing(
            Ghost(self.ring()),
            &self.sector,
            self.sites,
            Ghost(self.particles),
            state,
            source_orbit_size,
        )
    }
}

} // verus!
