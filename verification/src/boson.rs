//! Boson chains with a local cutoff and a fixed particle number.

use vstd::prelude::*;
use vstd::arithmetic::div_mod::*;
use crate::basis::{Basis, Landing};
use crate::basis;
use crate::error::{QmbedError, Result};
use crate::local::{
    LocalAlgebra, LocalFactor, LocalOutcome, Move, ProductOutcome, Reduction, Transition,
};
use crate::local;
use crate::radix;
use crate::spin;
use crate::states;

verus! {

/// A chain of boson modes, each with the same number of local states.
#[derive(Clone, Debug)]
pub struct BosonBasis1D {
    sites: usize,
    particles: Option<usize>,
    states_per_site: usize,
    place_values: Vec<u128>,
    states: Vec<u128>,
}

/// The selection of a boson sector.
#[derive(Clone, Copy, Debug)]
pub struct BosonBasisBuilder {
    pub sites: usize,
    pub particles: Option<usize>,
    pub states_per_site: usize,
}

/// What a boson operator does to the occupation of one site.
pub open spec fn boson_moves(
    sites: usize,
    states_per_site: usize,
    state: u128,
    symbol: char,
    site: usize,
) -> LocalOutcome<u128> {
    let base = states_per_site as nat;
    let occupation = radix::digit(state as nat, base, site as nat);
    let place = radix::place(base, site as nat);
    if site >= sites {
        Err(local::Fault::Site { site, sites })
    } else if symbol == 'I' {
        Ok(seq![(state, None)])
    } else if symbol == 'n' {
        Ok(
            seq![
                (
                    state,
                    Some(
                        LocalFactor {
                            quarter_turns: 0,
                            numerator: occupation as u128,
                            halved: false,
                            radicand: 1,
                        },
                    ),
                ),
            ],
        )
    } else if symbol == '+' {
        if occupation + 1 < base {
            Ok(
                seq![
                    (
                        (state + place) as u128,
                        Some(spin::ladder_factor(0, false, (occupation + 1) as u128)),
                    ),
                ],
            )
        } else {
            Ok(Seq::empty())
        }
    } else if symbol == '-' {
        if occupation > 0 {
            Ok(
                seq![
                    (
                        (state - place) as u128,
                        Some(spin::ladder_factor(0, false, occupation as u128)),
                    ),
                ],
            )
        } else {
            Ok(Seq::empty())
        }
    } else {
        Err(local::Fault::Symbol)
    }
}

impl BosonBasis1D {
    pub closed spec fn spec_sites(self) -> usize {
        self.sites
    }

    pub closed spec fn spec_particles(self) -> Option<usize> {
        self.particles
    }

    pub closed spec fn spec_states_per_site(self) -> usize {
        self.states_per_site
    }

    pub closed spec fn spec_states(self) -> Seq<u128> {
        self.states@
    }

    pub closed spec fn places_ready(self) -> bool {
        &&& self.place_values.len() == self.sites
        &&& forall|i: int|
            0 <= i < self.sites ==> #[trigger] self.place_values[i] == radix::place(
                self.states_per_site as nat,
                i as nat,
            )
    }

    /// The basis lists exactly the selected sector.
    pub open spec fn wf(self) -> bool {
        &&& self.spec_sites() > 0
        &&& self.spec_states_per_site() > 0
        &&& radix::place(self.spec_states_per_site() as nat, self.spec_sites() as nat) <= u128::MAX
        &&& states::lists_sector(
            self.spec_states(),
            self.spec_states_per_site() as nat,
            self.spec_sites() as nat,
            self.spec_particles(),
        )
        &&& self.spec_states().len() > 0
        &&& self.places_ready()
    }

    /// The selection of a sector, by default all states within the cutoff.
    pub fn builder(sites: usize, states_per_site: usize) -> (builder: BosonBasisBuilder)
        ensures
            builder == (BosonBasisBuilder { sites, particles: None, states_per_site }),
    {
        BosonBasisBuilder { sites, particles: None, states_per_site }
    }

    pub fn sites(&self) -> (sites: usize)
        ensures
            sites == self.spec_sites(),
    {
        self.sites
    }

    pub fn particles(&self) -> (particles: Option<usize>)
        ensures
            particles == self.spec_particles(),
    {
        self.particles
    }

    pub fn states_per_site(&self) -> (states_per_site: usize)
        ensures
            states_per_site == self.spec_states_per_site(),
    {
        self.states_per_site
    }
}

impl BosonBasisBuilder {
    pub fn particles(self, particles: usize) -> (builder: BosonBasisBuilder)
        ensures
            builder == (BosonBasisBuilder { particles: Some(particles), ..self }),
    {
        BosonBasisBuilder { particles: Some(particles), ..self }
    }

    /// No state of the lattice has the requested particle number.
    pub open spec fn empty(self) -> bool {
        ||| !states::digit_sum_sector_exists(self.sites, self.states_per_site, self.particles)
        ||| states::digit_sum_sector_fits(self.sites, self.states_per_site) && forall|x: u128|
            !#[trigger] states::in_sector(
                x,
                self.states_per_site as nat,
                self.sites as nat,
                self.particles,
            )
    }

    /// Builds the selected sector.
    pub fn build(self) -> (result: Result<BosonBasis1D>)
        ensures
            match result {
                Ok(basis) => {
                    &&& !self.empty()
                    &&& states::digit_sum_sector_fits(self.sites, self.states_per_site)
                    &&& basis.wf()
                    &&& basis.spec_sites() == self.sites
                    &&& basis.spec_particles() == self.particles
                    &&& basis.spec_states_per_site() == self.states_per_site
                },
                Err(QmbedError::InvalidSector(_)) => self.empty(),
                Err(QmbedError::UnsupportedBackend(_)) => !self.empty()
                    && !states::digit_sum_sector_fits(self.sites, self.states_per_site),
                Err(_) => false,
            },
    {
        let list: Vec<u128> = match states::fixed_digit_sum_states(
            self.sites,
            self.states_per_site,
            self.particles,
        ) {
            Ok(list) => list,
            Err(error) => {
                return Err(error);
            },
        };
        if list.len() == 0 {
            proof {
                assert forall|x: u128|
                    !#[trigger] states::in_sector(
                        x,
                        self.states_per_site as nat,
                        self.sites as nat,
                        self.particles,
                    ) by {
                    assert(!list@.contains(x));
                }
            }
            return Err(QmbedError::InvalidSector("empty boson sector".to_string()));
        }
        proof {
            assert(list@.contains(list@[0]));
            radix::lemma_place_monotone(
                self.states_per_site as nat,
                (self.sites - 1) as nat,
                self.sites as nat,
            );
        }
        match states::place_values(self.states_per_site as u128, self.sites) {
            Some(place_values) => Ok(
                BosonBasis1D {
                    sites: self.sites,
                    particles: self.particles,
                    states_per_site: self.states_per_site,
                    place_values,
                    states: list,
                },
            ),
            None => Err(
                QmbedError::UnsupportedBackend("mixed-radix state encoding overflow".to_string()),
            ),
        }
    }
}

impl LocalAlgebra for BosonBasis1D {
    type State = u128;

    open spec fn ready(&self) -> bool {
        self.spec_states_per_site() > 0 && self.places_ready()
    }

    open spec fn valid_state(&self, state: u128) -> bool {
        spin::encodable(state, self.spec_states_per_site() as nat, self.spec_sites() as nat)
    }

    open spec fn moves(
        &self,
        state: u128,
        symbol: char,
        position: nat,
        site: usize,
    ) -> LocalOutcome<u128> {
        boson_moves(self.spec_sites(), self.spec_states_per_site(), state, symbol, site)
    }

    fn apply_symbol(&self, state: u128, symbol: char, position: usize, site: usize) -> (result:
        Result<Vec<Move<u128>>>) {
        if site >= self.sites {
            return Err(QmbedError::InvalidSite { site, sites: self.sites });
        }
        let base: u128 = self.states_per_site as u128;
        let place: u128 = self.place_values[site];
        let ghost b = self.states_per_site as nat;
        let ghost n = self.sites as nat;
        let ghost i = site as nat;
        let ghost s = state as nat;
        proof {
            radix::lemma_place_positive(b, i);
            lemma_mod_bound((s / radix::place(b, i)) as int, b as int);
        }
        let occupation: u128 = (state / place) % base;
        proof {
            let d = radix::digit(s, b, i);
            if d + 1 < b {
                radix::lemma_raise_digit(s, b, i, n);
                spin::lemma_block(state, s + radix::place(b, i), b, n);
            }
            if d > 0 {
                radix::lemma_lower_digit(s, b, i, n);
                spin::lemma_block(state, (s - radix::place(b, i)) as nat, b, n);
            }
        }
        let ghost expected = boson_moves(self.sites, self.states_per_site, state, symbol, site);
        let mut moves: Vec<Move<u128>> = Vec::new();
        if symbol == 'I' {
            moves.push(Move { state, factor: None });
        } else if symbol == 'n' {
            moves.push(
                Move {
                    state,
                    factor: Some(
                        LocalFactor {
                            quarter_turns: 0,
                            numerator: occupation,
                            halved: false,
                            radicand: 1,
                        },
                    ),
                },
            );
        } else if symbol == '+' {
            if occupation + 1 < base {
                moves.push(
                    Move {
                        state: state + place,
                        factor: Some(
                            LocalFactor {
                                quarter_turns: 0,
                                numerator: 1,
                                halved: false,
                                radicand: occupation + 1,
                            },
                        ),
                    },
                );
            }
        } else if symbol == '-' {
            if occupation > 0 {
                moves.push(
                    Move {
                        state: state - place,
                        factor: Some(
                            LocalFactor {
                                quarter_turns: 0,
                                numerator: 1,
                                halved: false,
                                radicand: occupation,
                            },
                        ),
                    },
                );
            }
        } else {
            return Err(QmbedError::InvalidOperator(symbol.to_string()));
        }
        assert(local::moves_view(moves@) =~= expected->Ok_0);
        Ok(moves)
    }
}

/// A listed state stands for itself.
pub open spec fn plain_landing(listed: Seq<u128>, state: u128) -> Option<Landing> {
    if listed.contains(state) {
        Some(
            Landing {
                index: listed.index_of(state) as usize,
                reduction: basis::no_reduction(),
            },
        )
    } else {
        None
    }
}

pub(crate) fn find_plain_landing(listed: &Vec<u128>, state: u128) -> (result: Option<Landing>)
    requires
        states::ascending(listed@),
    ensures
        result == plain_landing(listed@, state),
        result matches Some(landing) ==> landing.index < listed.len(),
{
    match states::state_index(listed, state) {
        Ok(index) => {
            proof {
                spin::lemma_first_index(listed@, index as int);
            }
            Some(
                Landing {
                    index,
                    reduction: Reduction { turn: 0, steps: 1, given: None, source_orbit: 1, target_orbit: 1 },
                },
            )
        },
        Err(_) => None,
    }
}

impl Basis for BosonBasis1D {
    type State = u128;

    open spec fn well_formed(&self) -> bool {
        self.wf()
    }

    open spec fn listed(&self) -> Seq<u128> {
        self.spec_states()
    }

    open spec fn accepts(&self, state: u128) -> bool {
        spin::encodable(state, self.spec_states_per_site() as nat, self.spec_sites() as nat)
    }

    open spec fn action(
        &self,
        state: u128,
        symbols: Seq<char>,
        split: Option<usize>,
        sites: Seq<usize>,
    ) -> ProductOutcome<u128> {
        local::operator_action(self, state, symbols, sites)
    }

    open spec fn distinct(&self) -> bool {
        true
    }

    open spec fn seat(&self, state: u128) -> int {
        self.listed().index_of(state)
    }

    proof fn lemma_seat(&self, state: u128) {
    }

    proof fn lemma_distinct(&self) {
        assert(self.listed().no_duplicates()) by {
            let list = self.listed();
            assert forall|i: int, j: int|
                0 <= i < list.len() && 0 <= j < list.len() && i != j implies list[i] != list[j] by {
                if i < j {
                    assert(list[i] < list[j]);
                } else {
                    assert(list[j] < list[i]);
                }
            }
        }
    }

    open spec fn orbit_weight(&self, state: u128) -> nat {
        1
    }

    open spec fn landing(&self, state: u128, source_orbit: usize) -> Option<Landing> {
        plain_landing(self.spec_states(), state)
    }

    open spec fn two_parts(&self) -> bool {
        false
    }

    fn needs_separator(&self) -> (needed: bool) {
        false
    }

    open spec fn orbit_reduced(&self) -> bool {
        false
    }

    fn is_orbit_reduced(&self) -> (reduced: bool) {
        false
    }

    fn len(&self) -> (length: usize) {
        self.states.len()
    }

    fn state(&self, index: usize) -> (result: Result<u128>) {
        if index < self.states.len() {
            let state: u128 = self.states[index];
            proof {
                assert(self.states@.contains(state));
                spin::lemma_lattice_state_encodable(
                    state,
                    self.states_per_site as nat,
                    self.sites as nat,
                );
            }
            Ok(state)
        } else {
            Err(QmbedError::StateNotInBasis)
        }
    }

    fn index(&self, state: u128) -> (result: Result<usize>) {
        let result: Result<usize> = if self.particles.is_none() {
            proof {
                states::lemma_full_list(
                    self.states@,
                    radix::place(self.states_per_site as nat, self.sites as nat),
                );
            }
            states::direct_state_index(&self.states, state)
        } else {
            states::state_index(&self.states, state)
        };
        proof {
            self.lemma_distinct();
            if let Ok(index) = &result {
                basis::lemma_one_place(self.listed(), *index as int);
            }
        }
        result
    }

    fn unreduced_transitions(
        &self,
        state: u128,
        symbols: &[char],
        split: Option<usize>,
        sites: &[usize],
    ) -> (result: Result<Vec<Transition<u128>>>) {
        local::apply_product(self, state, symbols, sites)
    }

    fn transition_orbit_size(&self, state: u128) -> (result: Result<usize>) {
        Ok(1)
    }

    open spec fn preservation(&self, operator: Seq<char>) -> std::result::Result<bool, local::Fault> {
        basis::keeps_total(self.spec_particles() is Some, operator)
    }

    fn operator_preserves_particle_sector(&self, operator: &str) -> (result: Result<bool>) {
        basis::total_is_kept(self.particles.is_some(), operator)
    }

    fn index_transition(&self, state: u128, source_orbit_size: usize) -> (result: Option<
        Landing,
    >) {
        find_plain_landing(&self.states, state)
    }
}

} // verus!
