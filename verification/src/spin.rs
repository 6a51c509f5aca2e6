//! Spin chains with fixed magnetization, momentum and parity.

use vstd::prelude::*;
use vstd::arithmetic::mul::*;
use vstd::arithmetic::div_mod::*;
use crate::basis::{Basis, Landing};
use crate::basis;
use crate::error::{QmbedError, Result};
use crate::local::{LocalAlgebra, LocalFactor, LocalOutcome, Move, ProductOutcome, Reduction, Transition};
use crate::local;
use crate::radix;
use crate::states;
use crate::symmetry::{RingSector, RingSymmetry};
use crate::symmetry;

verus! {

/// The units of the spin operators.
#[derive(Clone, Copy, Debug, PartialEq, Eq, Structural)]
pub enum SpinNormalization {
    /// Angular momentum operators.
    AngularMomentum,
    /// Twice the angular momentum operators.
    Pauli,
    /// Pauli matrices, with ladder operators that carry no factor.
    PauliCartesian,
}

/// A chain of spins of equal magnitude, restricted to a symmetry sector.
#[derive(Clone, Debug)]
pub struct SpinBasis1D {
    sites: usize,
    spin_twice: u16,
    up: Option<usize>,
    normalization: SpinNormalization,
    place_values: Vec<u128>,
    sector: RingSector,
}

/// The selection of a spin sector.
#[derive(Clone, Copy, Debug)]
pub struct SpinBasisBuilder {
    pub sites: usize,
    pub spin_twice: u16,
    pub up: Option<usize>,
    pub momentum: Option<i32>,
    pub parity: Option<i8>,
    pub normalization: SpinNormalization,
}

/// The block of numbers around `state` that share all digits above the lattice is
/// encodable, so that changing a digit of the lattice stays within the encoding.
pub open spec fn encodable(state: u128, base: nat, sites: nat) -> bool {
    (state as nat / radix::place(base, sites) + 1) * radix::place(base, sites) <= u128::MAX + 1
}

/// The matrix element of the raising operator of spin `twice / 2` on level `d`.
pub open spec fn raising_radicand(twice: nat, d: nat) -> int {
    (d + 1) * (twice - d)
}

/// The matrix element of the lowering operator of spin `twice / 2` on level `d`.
pub open spec fn lowering_radicand(twice: nat, d: nat) -> int {
    d * (twice - d + 1)
}

/// The matrix element of the `z` component on level `d`, doubled without the Pauli
/// convention.
pub open spec fn z_factor(twice: nat, d: nat, pauli: bool) -> LocalFactor {
    if 2 * d >= twice {
        LocalFactor {
            quarter_turns: 0,
            numerator: (2 * d - twice) as u128,
            halved: !pauli,
            radicand: 1,
        }
    } else {
        LocalFactor {
            quarter_turns: 2,
            numerator: (twice - 2 * d) as u128,
            halved: !pauli,
            radicand: 1,
        }
    }
}

/// What a spin operator does to the level of one site.
pub open spec fn spin_moves(
    sites: usize,
    spin_twice: u16,
    normalization: SpinNormalization,
    state: u128,
    symbol: char,
    site: usize,
) -> LocalOutcome<u128> {
    let twice = spin_twice as nat;
    let base = twice + 1;
    let d = radix::digit(state as nat, base, site as nat);
    let place = radix::place(base, site as nat);
    let raised = (state + place) as u128;
    let lowered = (state - place) as u128;
    let up = raising_radicand(twice, d) as u128;
    let down = lowering_radicand(twice, d) as u128;
    let pauli = normalization != SpinNormalization::AngularMomentum;
    if site >= sites {
        Err(local::Fault::Site { site, sites })
    } else if symbol == 'I' {
        Ok(seq![(state, None)])
    } else if symbol == 'z' {
        if 2 * d == twice {
            Ok(Seq::empty())
        } else {
            Ok(seq![(state, Some(z_factor(twice, d, pauli)))])
        }
    } else if symbol == '+' {
        if d == twice {
            Ok(Seq::empty())
        } else {
            Ok(seq![(raised, Some(shift_factor(normalization, up)))])
        }
    } else if symbol == '-' {
        if d == 0 {
            Ok(Seq::empty())
        } else {
            Ok(seq![(lowered, Some(shift_factor(normalization, down)))])
        }
    } else if symbol == 'x' || symbol == 'y' {
        let up_move = (raised, Some(ladder_factor(if symbol == 'x' { 0 } else { 3 }, !pauli, up)));
        let down_move = (
            lowered,
            Some(ladder_factor(if symbol == 'x' { 0 } else { 1 }, !pauli, down)),
        );
        if d == twice {
            Ok(seq![down_move])
        } else if d == 0 {
            Ok(seq![up_move])
        } else {
            Ok(seq![up_move, down_move])
        }
    } else {
        Err(local::Fault::Symbol)
    }
}

/// The matrix element of a raising or lowering operator.
pub open spec fn shift_factor(normalization: SpinNormalization, radicand: u128) -> LocalFactor {
    LocalFactor {
        quarter_turns: 0,
        numerator: if normalization == SpinNormalization::Pauli {
            2
        } else {
            1
        },
        halved: false,
        radicand,
    }
}

/// A square root times a power of `i`, possibly halved.
pub open spec fn ladder_factor(quarter_turns: u8, halved: bool, radicand: u128) -> LocalFactor {
    LocalFactor { quarter_turns, numerator: 1, halved, radicand }
}

impl SpinBasis1D {
    pub closed spec fn spec_sites(self) -> usize {
        self.sites
    }

    pub closed spec fn spec_spin_twice(self) -> u16 {
        self.spin_twice
    }

    pub closed spec fn spec_up(self) -> Option<usize> {
        self.up
    }

    pub closed spec fn spec_normalization(self) -> SpinNormalization {
        self.normalization
    }

    /// The operators are measured in units of Pauli matrices.
    pub open spec fn spec_pauli(self) -> bool {
        self.spec_normalization() != SpinNormalization::AngularMomentum
    }

    pub closed spec fn spec_sector(self) -> RingSector {
        self.sector
    }

    /// The local dimension.
    pub open spec fn base(self) -> nat {
        self.spec_spin_twice() as nat + 1
    }

    /// The symmetry of the selected sector.
    pub open spec fn ring(self) -> RingSymmetry {
        RingSymmetry {
            sites: self.spec_sites(),
            base: self.base() as u128,
            momentum: self.spec_sector().momentum,
            parity: self.spec_sector().parity,
            fermionic: false,
        }
    }

    /// The basis lists exactly the selected sector.
    pub open spec fn wf(self) -> bool {
        &&& self.spec_spin_twice() > 0
        &&& self.spec_pauli() ==> self.spec_spin_twice() == 1
        &&& self.ring().wf()
        &&& self.spec_sector().covers(self.ring(), self.spec_up())
        &&& self.spec_sector().states.len() > 0
        &&& self.places_ready()
    }

    pub closed spec fn places_ready(self) -> bool {
        &&& self.place_values.len() == self.sites
        &&& forall|i: int|
            0 <= i < self.sites ==> #[trigger] self.place_values[i] == radix::place(
                self.base(),
                i as nat,
            )
    }

    /// The selection of a sector, by default all states of spins one half.
    pub fn builder(sites: usize) -> (builder: SpinBasisBuilder)
        ensures
            builder == (SpinBasisBuilder {
                sites,
                spin_twice: 1,
                up: None,
                momentum: None,
                parity: None,
                normalization: SpinNormalization::AngularMomentum,
            }),
    {
        SpinBasisBuilder {
            sites,
            spin_twice: 1,
            up: None,
            momentum: None,
            parity: None,
            normalization: SpinNormalization::AngularMomentum,
        }
    }

    pub fn sites(&self) -> (sites: usize)
        ensures
            sites == self.spec_sites(),
    {
        self.sites
    }

    pub fn spin_twice(&self) -> (spin_twice: u16)
        ensures
            spin_twice == self.spec_spin_twice(),
    {
        self.spin_twice
    }

    pub fn up(&self) -> (up: Option<usize>)
        ensures
            up == self.spec_up(),
    {
        self.up
    }

    pub fn pauli(&self) -> (pauli: bool)
        ensures
            pauli == self.spec_pauli(),
    {
        self.normalization != SpinNormalization::AngularMomentum
    }

    pub fn normalization(&self) -> (normalization: SpinNormalization)
        ensures
            normalization == self.spec_normalization(),
    {
        self.normalization
    }

    pub fn momentum(&self) -> (momentum: Option<usize>)
        ensures
            momentum == self.ring().momentum,
    {
        self.sector.momentum
    }

    pub fn parity(&self) -> (parity: Option<i8>)
        ensures
            parity == self.ring().parity,
    {
        self.sector.parity
    }
}

/// Changing a digit keeps the state within its block of numbers.
pub proof fn lemma_block(state: u128, target: nat, base: nat, sites: nat)
    requires
        base > 0,
        encodable(state, base, sites),
        target / radix::place(base, sites) == state as nat / radix::place(base, sites),
    ensures
        target <= u128::MAX,
        encodable(target as u128, base, sites),
{
    let p = radix::place(base, sites);
    let q = target / p;
    radix::lemma_place_positive(base, sites);
    lemma_fundamental_div_mod(target as int, p as int);
    lemma_mod_bound(target as int, p as int);
    let r = target % p;
    assert(target < (q + 1) * p) by (nonlinear_arith)
        requires
            target == p * q + r,
            r < p,
    ;
}

/// Every state of the lattice is encodable.
pub proof fn lemma_lattice_state_encodable(state: u128, base: nat, sites: nat)
    requires
        base > 0,
        state < radix::place(base, sites),
        radix::place(base, sites) <= u128::MAX + 1,
    ensures
        encodable(state, base, sites),
{
    lemma_basic_div(state as int, radix::place(base, sites) as int);
    lemma_mul_basics(radix::place(base, sites) as int);
}

pub proof fn lemma_radicands(twice: u16, d: nat)
    requires
        d <= twice,
    ensures
        0 <= raising_radicand(twice as nat, d) <= 0x1_0000_0000,
        0 <= lowering_radicand(twice as nat, d) <= 0x1_0000_0000,
{
    let n = twice as int;
    assert(0 <= (d + 1) * (n - d) <= 0x1_0000_0000) by (nonlinear_arith)
        requires
            0 <= d <= n,
            n <= 0xffff,
    ;
    assert(0 <= d * (n - d + 1) <= 0x1_0000_0000) by (nonlinear_arith)
        requires
            0 <= d <= n,
            n <= 0xffff,
    ;
}

impl LocalAlgebra for SpinBasis1D {
    type State = u128;

    open spec fn ready(&self) -> bool {
        self.spec_spin_twice() > 0 && self.places_ready()
    }

    open spec fn valid_state(&self, state: u128) -> bool {
        encodable(state, self.base(), self.spec_sites() as nat)
    }

    open spec fn moves(
        &self,
        state: u128,
        symbol: char,
        position: nat,
        site: usize,
    ) -> LocalOutcome<u128> {
        spin_moves(
            self.spec_sites(),
            self.spec_spin_twice(),
            self.spec_normalization(),
            state,
            symbol,
            site,
        )
    }

    fn apply_symbol(&self, state: u128, symbol: char, position: usize, site: usize) -> (result:
        Result<Vec<Move<u128>>>) {
        if site >= self.sites {
            return Err(QmbedError::InvalidSite { site, sites: self.sites });
        }
        let base: u128 = self.spin_twice as u128 + 1;
        let place: u128 = self.place_values[site];
        let ghost b = self.base();
        let ghost n = self.sites as nat;
        let ghost i = site as nat;
        let ghost s = state as nat;
        proof {
            radix::lemma_place_positive(b, i);
            lemma_mod_bound((s / radix::place(b, i)) as int, b as int);
        }
        let level: u128 = (state / place) % base;
        let twice: u128 = self.spin_twice as u128;
        let ghost d = radix::digit(s, b, i);
        proof {
            lemma_radicands(self.spin_twice, d);
            if d + 1 < b {
                radix::lemma_raise_digit(s, b, i, n);
                lemma_block(state, s + radix::place(b, i), b, n);
            }
            if d > 0 {
                radix::lemma_lower_digit(s, b, i, n);
                lemma_block(state, (s - radix::place(b, i)) as nat, b, n);
            }
        }
        let pauli: bool = self.normalization != SpinNormalization::AngularMomentum;
        let mut moves: Vec<Move<u128>> = Vec::new();
        let ghost expected = spin_moves(
            self.sites,
            self.spin_twice,
            self.normalization,
            state,
            symbol,
            site,
        );
        if symbol == 'I' {
            moves.push(Move { state, factor: None });
            assert(moves_match(moves@, expected));
        } else if symbol == 'z' {
            if 2 * level != twice {
                let factor: LocalFactor = if 2 * level >= twice {
                    LocalFactor {
                        quarter_turns: 0,
                        numerator: 2 * level - twice,
                        halved: !pauli,
                        radicand: 1,
                    }
                } else {
                    LocalFactor {
                        quarter_turns: 2,
                        numerator: twice - 2 * level,
                        halved: !pauli,
                        radicand: 1,
                    }
                };
                moves.push(Move { state, factor: Some(factor) });
            }
            assert(moves_match(moves@, expected));
        } else if symbol == '+' || symbol == '-' || symbol == 'x' || symbol == 'y' {
            let halved: bool = (symbol == 'x' || symbol == 'y') && !pauli;
            let numerator: u128 = if (symbol == '+' || symbol == '-') && self.normalization
                == SpinNormalization::Pauli {
                2
            } else {
                1
            };
            if symbol != '-' && level < twice {
                let quarter_turns: u8 = if symbol == 'y' {
                    3
                } else {
                    0
                };
                assert((level + 1) * (twice - level) == raising_radicand(twice as nat, d));
                let radicand: u128 = (level + 1) * (twice - level);
                moves.push(
                    Move {
                        state: state + place,
                        factor: Some(
                            LocalFactor { quarter_turns, numerator, halved, radicand },
                        ),
                    },
                );
            }
            if symbol != '+' && level > 0 {
                let quarter_turns: u8 = if symbol == 'y' {
                    1
                } else {
                    0
                };
                assert(level * (twice - level + 1) == lowering_radicand(twice as nat, d));
                let radicand: u128 = level * (twice - level + 1);
                moves.push(
                    Move {
                        state: state - place,
                        factor: Some(
                            LocalFactor { quarter_turns, numerator, halved, radicand },
                        ),
                    },
                );
            }
            assert(moves_match(moves@, expected));
        } else {
            return Err(QmbedError::InvalidOperator(symbol.to_string()));
        }
        Ok(moves)
    }
}

spec fn moves_match(moves: Seq<Move<u128>>, expected: LocalOutcome<u128>) -> bool {
    expected is Ok && local::moves_view(moves) =~= expected->Ok_0
}

/// The units that the Pauli switch selects.
pub open spec fn pauli_units(pauli: bool) -> SpinNormalization {
    if pauli {
        SpinNormalization::PauliCartesian
    } else {
        SpinNormalization::AngularMomentum
    }
}

/// Why a spin sector cannot be built.
#[derive(Clone, Copy, Debug, PartialEq, Eq, Structural)]
pub enum BuildVerdict {
    Accepted,
    InvalidSector,
    InvalidOptions,
    UnsupportedBackend,
    IncompatibleSymmetry,
}

/// The error reports the verdict.
pub open spec fn refused_as(error: QmbedError, verdict: BuildVerdict) -> bool {
    match verdict {
        BuildVerdict::Accepted => false,
        BuildVerdict::InvalidSector => error is InvalidSector,
        BuildVerdict::InvalidOptions => error is InvalidOptions,
        BuildVerdict::UnsupportedBackend => error is UnsupportedBackend,
        BuildVerdict::IncompatibleSymmetry => error is IncompatibleSymmetry,
    }
}

impl SpinBasisBuilder {
    pub open spec fn base(self) -> nat {
        self.spin_twice as nat + 1
    }

    pub open spec fn ring(self) -> RingSymmetry {
        symmetry::spin_symmetry(self.sites, self.base() as u128, self.momentum, self.parity)
    }

    /// Whether the states of the parent sector can be enumerated.
    pub open spec fn parent_verdict(self) -> BuildVerdict {
        let limit = radix::place(self.base(), self.sites as nat);
        if self.up matches Some(up) && up > self.sites * self.spin_twice {
            BuildVerdict::InvalidSector
        } else if self.spin_twice == 1 && self.up is Some {
            BuildVerdict::Accepted
        } else if self.spin_twice > 1 && self.sites == 0 {
            BuildVerdict::InvalidSector
        } else if limit > u128::MAX {
            BuildVerdict::UnsupportedBackend
        } else {
            BuildVerdict::Accepted
        }
    }

    /// What becomes of the request, its conditions taken in order.
    pub open spec fn verdict(self) -> BuildVerdict {
        if self.spin_twice == 0 {
            BuildVerdict::InvalidSector
        } else if self.normalization != SpinNormalization::AngularMomentum && self.spin_twice != 1 {
            BuildVerdict::InvalidOptions
        } else if self.sites > 0 && radix::place(self.base(), (self.sites - 1) as nat)
            > u128::MAX {
            BuildVerdict::UnsupportedBackend
        } else if self.parent_verdict() != BuildVerdict::Accepted {
            self.parent_verdict()
        } else if self.sites == 0 {
            BuildVerdict::InvalidSector
        } else if self.parity is Some && self.parity->0 != 1 && self.parity->0 != -1 {
            BuildVerdict::InvalidSector
        } else if !symmetry::compatible(
            symmetry::normalized(self.momentum, self.sites),
            self.parity,
            self.sites,
        ) {
            BuildVerdict::IncompatibleSymmetry
        } else if forall|x: u128| #[trigger]
            states::in_sector(x, self.base(), self.sites as nat, self.up)
                ==> !self.ring().survives(x as nat) {
            BuildVerdict::InvalidSector
        } else {
            BuildVerdict::Accepted
        }
    }

    pub fn spin_twice(self, spin_twice: u16) -> (builder: SpinBasisBuilder)
        ensures
            builder == (SpinBasisBuilder { spin_twice, ..self }),
    {
        SpinBasisBuilder { spin_twice, ..self }
    }

    pub fn up(self, up: usize) -> (builder: SpinBasisBuilder)
        ensures
            builder == (SpinBasisBuilder { up: Some(up), ..self }),
    {
        SpinBasisBuilder { up: Some(up), ..self }
    }

    pub fn magnetization(self, up: usize) -> (builder: SpinBasisBuilder)
        ensures
            builder == (SpinBasisBuilder { up: Some(up), ..self }),
    {
        SpinBasisBuilder { up: Some(up), ..self }
    }

    pub fn momentum(self, momentum: i32) -> (builder: SpinBasisBuilder)
        ensures
            builder == (SpinBasisBuilder { momentum: Some(momentum), ..self }),
    {
        SpinBasisBuilder { momentum: Some(momentum), ..self }
    }

    pub fn parity(self, parity: i8) -> (builder: SpinBasisBuilder)
        ensures
            builder == (SpinBasisBuilder { parity: Some(parity), ..self }),
    {
        SpinBasisBuilder { parity: Some(parity), ..self }
    }

    /// Pauli matrices in place of angular momentum operators.
    pub fn pauli(self, pauli: bool) -> (builder: SpinBasisBuilder)
        ensures
            builder == (SpinBasisBuilder { normalization: pauli_units(pauli), ..self }),
    {
        if pauli {
            SpinBasisBuilder { normalization: SpinNormalization::PauliCartesian, ..self }
        } else {
            SpinBasisBuilder { normalization: SpinNormalization::AngularMomentum, ..self }
        }
    }

    pub fn normalization(self, normalization: SpinNormalization) -> (builder: SpinBasisBuilder)
        ensures
            builder == (SpinBasisBuilder { normalization, ..self }),
    {
        SpinBasisBuilder { normalization, ..self }
    }

    /// Enumerates the states of the parent sector.
    fn parent_states(&self) -> (result: Result<Vec<u128>>)
        requires
            self.spin_twice > 0,
            self.sites > 0 ==> radix::place(self.base(), (self.sites - 1) as nat) <= u128::MAX,
        ensures
            match result {
                Ok(list) => {
                    &&& self.parent_verdict() == BuildVerdict::Accepted
                    &&& states::lists_sector(list@, self.base(), self.sites as nat, self.up)
                    &&& radix::place(self.base(), self.sites as nat) <= u128::MAX + 1
                },
                Err(error) => refused_as(error, self.parent_verdict()),
            },
    {
        proof {
            self.lemma_site_bound();
        }
        if self.spin_twice == 1 {
            proof {
                states::lemma_power_of_two(self.sites);
                lemma_mul_basics(self.sites as int);
                if self.sites < 128 {
                    radix::lemma_place_strict(2, self.sites as nat, 128);
                    states::lemma_power_of_two(128);
                }
            }
            states::fixed_weight_states(self.sites, self.up)
        } else {
            states::fixed_digit_sum_states(self.sites, self.spin_twice as usize + 1, self.up)
        }
    }

    proof fn lemma_site_bound(self)
        requires
            self.spin_twice > 0,
            self.sites > 0 ==> radix::place(self.base(), (self.sites - 1) as nat) <= u128::MAX,
        ensures
            self.sites <= 128,
    {
        if self.sites > 128 {
            states::lemma_power_of_two(128);
            radix::lemma_place_monotone(2, 128, (self.sites - 1) as nat);
            symmetry::lemma_place_base(2, self.base(), (self.sites - 1) as nat);
        }
    }

    /// Builds the selected sector.
    pub fn build(self) -> (result: Result<SpinBasis1D>)
        ensures
            match result {
                Ok(basis) => {
                    &&& self.verdict() == BuildVerdict::Accepted
                    &&& basis.wf()
                    &&& basis.spec_sites() == self.sites
                    &&& basis.spec_spin_twice() == self.spin_twice
                    &&& basis.spec_up() == self.up
                    &&& basis.spec_normalization() == self.normalization
                    &&& basis.ring() == self.ring()
                },
                Err(error) => refused_as(error, self.verdict()),
            },
    {
        if self.spin_twice == 0 {
            return Err(QmbedError::InvalidSector("spin_twice must be positive".to_string()));
        }
        if self.normalization != SpinNormalization::AngularMomentum && self.spin_twice != 1 {
            return Err(
                QmbedError::InvalidOptions(
                    "the Pauli convention is defined only for spin one-half".to_string(),
                ),
            );
        }
        let base: u128 = self.spin_twice as u128 + 1;
        let place_values: Vec<u128> = match states::place_values(base, self.sites) {
            Some(places) => places,
            None => {
                return Err(
                    QmbedError::UnsupportedBackend(
                        "spin-state place value exceeds the u128 backend".to_string(),
                    ),
                );
            },
        };
        let parent: Vec<u128> = match self.parent_states() {
            Ok(list) => list,
            Err(error) => {
                return Err(error);
            },
        };
        let ghost total = self.up;
        proof {
            assert(states::lists_sector(parent@, base as nat, self.sites as nat, total));
            if self.ring().wf() {
                symmetry::sectors_are_closed(self.ring(), parent@, total);
            }
        }
        let sector: RingSector = match symmetry::spin_symmetry_sector(
            &parent,
            self.sites,
            base,
            self.momentum,
            self.parity,
        ) {
            Ok(sector) => sector,
            Err(error) => {
                proof {
                    assert forall|x: u128|
                        parent@.contains(x) <==> #[trigger] states::in_sector(
                            x,
                            self.base(),
                            self.sites as nat,
                            self.up,
                        ) by {}
                }
                return Err(error);
            },
        };
        proof {
            sector.lemma_covers(self.ring(), parent@, total);
        }
        if sector.states.len() == 0 {
            proof {
                assert forall|x: u128| #[trigger]
                    states::in_sector(x, self.base(), self.sites as nat, self.up) implies
                    !self.ring().survives(x as nat) by {
                    assert(parent@.contains(x));
                    symmetry::lemma_empty_sector(sector, self.ring(), parent@, x);
                }
            }
            return Err(QmbedError::InvalidSector("empty spin sector".to_string()));
        }
        proof {
            let x = sector.states@[0];
            assert(sector.states@.contains(x));
            assert(states::in_sector(x, self.base(), self.sites as nat, self.up));
        }
        Ok(
            SpinBasis1D {
                sites: self.sites,
                spin_twice: self.spin_twice,
                up: self.up,
                normalization: self.normalization,
                place_values,
                sector,
            },
        )
    }
}

/// Where a state of a ring sector ends up: the row of its representative, with the
/// phase and the orbit sizes of the reduction.
pub open spec fn ring_landing(sector: RingSector, sites: usize, state: u128, source_orbit: usize) -> Option<
    Landing,
> {
    match sector.spec_image(state) {
        Some(image) => Some(
            Landing {
                index: sector.states@.index_of(image.representative) as usize,
                reduction: Reduction {
                    turn: image.turn,
                    steps: (2 * sites) as usize,
                    given: None,
                    source_orbit,
                    target_orbit: image.orbit_size,
                },
            },
        ),
        None => None,
    }
}

/// The position found by a search in an increasing list is the first one.
pub proof fn lemma_first_index(list: Seq<u128>, index: int)
    requires
        states::ascending(list),
        0 <= index < list.len(),
    ensures
        list.contains(list[index]),
        list.index_of(list[index]) == index,
{
    let state = list[index];
    assert(list.contains(state));
    let first = list.index_of(state);
    assert(list[first] == state);
    if first < index {
        assert(list[first] < list[index]);
    } else if index < first {
        assert(list[index] < list[first]);
    }
}

/// Looks up where a state of a ring sector ends up.
pub(crate) fn find_ring_landing(
    ring: Ghost<RingSymmetry>,
    sector: &RingSector,
    sites: usize,
    total: Ghost<Option<usize>>,
    state: u128,
    source_orbit: usize,
) -> (result: Option<Landing>)
    requires
        ring@.wf(),
        sector.covers(ring@, total@),
        sites == ring@.sites,
    ensures
        result == ring_landing(*sector, sites, state, source_orbit),
        result matches Some(landing) ==> landing.index < sector.states.len(),
{
    match sector.image(state) {
        None => None,
        Some(image) => {
            proof {
                ring@.lemma_sites();
                let i = sector.members@.index_of(state);
                assert(sector.members@[i] == state);
                assert(sector.states@.contains(sector.images[i].representative));
            }
            match states::state_index(&sector.states, image.representative) {
                Ok(index) => {
                    proof {
                        lemma_first_index(sector.states@, index as int);
                    }
                    Some(
                        Landing {
                            index,
                            reduction: Reduction {
                                turn: image.turn,
                                steps: 2 * sites,
                                given: None,
                                source_orbit,
                                target_orbit: image.orbit_size,
                            },
                        },
                    )
                },
                Err(_) => None,
            }
        },
    }
}

impl Basis for SpinBasis1D {
    type State = u128;

    open spec fn well_formed(&self) -> bool {
        self.wf()
    }

    open spec fn listed(&self) -> Seq<u128> {
        self.spec_sector().states@
    }

    open spec fn accepts(&self, state: u128) -> bool {
        encodable(state, self.base(), self.spec_sites() as nat)
    }

    open spec fn action(
        &self,
        state: u128,
        symbols: Seq<char>,
        split: Option<usize>,
        sites: Seq<usize>,
    ) -> ProductOutcome<u128> {
        local::operator_action(self, state, symbols, sites)
    }

    open spec fn distinct(&self) -> bool {
        true
    }

    open spec fn seat(&self, state: u128) -> int {
        self.listed().index_of(state)
    }

    proof fn lemma_seat(&self, state: u128) {
    }

    proof fn lemma_distinct(&self) {
        assert(self.listed().no_duplicates()) by {
            let list = self.listed();
            assert forall|i: int, j: int|
                0 <= i < list.len() && 0 <= j < list.len() && i != j implies list[i] != list[j] by {
                if i < j {
                    assert(list[i] < list[j]);
                } else {
                    assert(list[j] < list[i]);
                }
            }
        }
    }

    open spec fn orbit_weight(&self, state: u128) -> nat {
        if self.orbit_reduced() {
            self.ring().orbit(state as nat).len()
        } else {
            1
        }
    }

    open spec fn landing(&self, state: u128, source_orbit: usize) -> Option<Landing> {
        ring_landing(self.spec_sector(), self.spec_sites(), state, source_orbit)
    }

    open spec fn two_parts(&self) -> bool {
        false
    }

    fn needs_separator(&self) -> (needed: bool) {
        false
    }

    open spec fn orbit_reduced(&self) -> bool {
        self.spec_sector().momentum is Some || self.spec_sector().parity is Some
    }

    fn is_orbit_reduced(&self) -> (reduced: bool) {
        self.sector.momentum.is_some() || self.sector.parity.is_some()
    }

    fn len(&self) -> (length: usize) {
        self.sector.states.len()
    }

    fn state(&self, index: usize) -> (result: Result<u128>) {
        if index < self.sector.states.len() {
            let state: u128 = self.sector.states[index];
            proof {
                assert(self.sector.states@.contains(state));
                lemma_lattice_state_encodable(state, self.base(), self.sites as nat);
            }
            Ok(state)
        } else {
            Err(QmbedError::StateNotInBasis)
        }
    }

    fn index(&self, state: u128) -> (result: Result<usize>) {
        let result: Result<usize> = states::state_index(&self.sector.states, state);
        proof {
            self.lemma_distinct();
            if let Ok(index) = &result {
                basis::lemma_one_place(self.listed(), *index as int);
            }
        }
        result
    }

    fn unreduced_transitions(
        &self,
        state: u128,
        symbols: &[char],
        split: Option<usize>,
        sites: &[usize],
    ) -> (result: Result<Vec<Transition<u128>>>) {
        local::apply_product(self, state, symbols, sites)
    }

    fn transition_orbit_size(&self, state: u128) -> (result: Result<usize>) {
        if !self.is_orbit_reduced() {
            return Ok(1);
        }
        match states::state_index(&self.sector.states, state) {
            Ok(index) => {
                assert(self.sector.states@[index as int] == state);
                Ok(self.sector.orbit_sizes[index])
            },
            Err(error) => Err(error),
        }
    }

    open spec fn preservation(&self, operator: Seq<char>) -> std::result::Result<bool, local::Fault> {
        basis::keeps_total(self.spec_up() is Some, operator)
    }

    fn operator_preserves_particle_sector(&self, operator: &str) -> (result: Result<bool>) {
        basis::total_is_kept(self.up.is_some(), operator)
    }

    fn index_transition(&self, state: u128, source_orbit_size: usize) -> (result: Option<
        Landing,
    >) {
        find_ring_landing(
            Ghost(self.ring()),
            &self.sector,
            self.sites,
            Ghost(self.up),
            state,
            source_orbit_size,
        )
    }
}

} // verus!
