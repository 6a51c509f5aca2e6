//! Fermions with spin one half: two species on one lattice.

use vstd::prelude::*;
use vstd::arithmetic::div_mod::*;
use vstd::arithmetic::mul::*;
use crate::basis::{Basis, Landing};
use crate::basis;
use crate::boson;
use crate::error::{QmbedError, Result};
use crate::fermion;
use crate::local::{Fault, LocalAlgebra, LocalOutcome, Move, ProductOutcome, Transition};
use crate::local;
use crate::notation;
use crate::radix;
use crate::states;

verus! {

/// Two species of fermions on one lattice, with fixed particle numbers or a union
/// of particle sectors. Up orbitals come below down orbitals.
#[derive(Clone, Debug)]
pub struct SpinfulFermionBasis1D {
    sites: usize,
    particles_up: Option<usize>,
    particles_down: Option<usize>,
    particle_sectors: Option<Vec<(usize, usize)>>,
    states: Vec<u128>,
}

/// The selection of a sector of two fermion species.
#[derive(Debug)]
pub struct SpinfulFermionBasisBuilder {
    pub sites: usize,
    pub particles_up: Option<usize>,
    pub particles_down: Option<usize>,
    pub particle_sectors: Option<Vec<(usize, usize)>>,
}

/// A particle count of a sector; the largest machine integer leaves the count open.
pub open spec fn species_total(count: usize) -> Option<usize> {
    if count == usize::MAX {
        None
    } else {
        Some(count)
    }
}

/// Both species of the state have the requested counts.
pub open spec fn in_species_sector(state: u128, sites: nat, sector: (usize, usize)) -> bool {
    let width = radix::place(2, sites);
    &&& states::in_sector((state as nat % width) as u128, 2, sites, species_total(sector.0))
    &&& states::in_sector((state as nat / width) as u128, 2, sites, species_total(sector.1))
}

/// Some sector of the union holds the state.
pub open spec fn in_some_sector(state: u128, sites: nat, sectors: Seq<(usize, usize)>) -> bool {
    exists|i: int| 0 <= i < sectors.len() && in_species_sector(state, sites, #[trigger] sectors[i])
}

/// A count that the lattice cannot hold.
pub open spec fn overfull(sites: usize, sector: (usize, usize)) -> bool {
    ||| sector.0 != usize::MAX && sector.0 > sites
    ||| sector.1 != usize::MAX && sector.1 > sites
}

/// The requested sectors: the union if one is given, else the pair of counts.
pub open spec fn requested_sectors(
    up: Option<usize>,
    down: Option<usize>,
    union: Option<Seq<(usize, usize)>>,
) -> Seq<(usize, usize)> {
    match union {
        Some(sectors) => sectors,
        None => seq![
            (
                match up {
                    Some(count) => count,
                    None => usize::MAX,
                },
                match down {
                    Some(count) => count,
                    None => usize::MAX,
                },
            ),
        ],
    }
}

pub open spec fn union_view(union: Option<Vec<(usize, usize)>>) -> Option<Seq<(usize, usize)>> {
    match union {
        Some(list) => Some(list@),
        None => None,
    }
}

/// All states of one pair of counts, in increasing order.
fn species_states(sites: usize, sector: (usize, usize)) -> (result: Result<Vec<u128>>)
    requires
        sites <= 64,
    ensures
        match result {
            Ok(list) => {
                &&& !overfull(sites, sector)
                &&& states::ascending(list@)
                &&& forall|x: u128| #[trigger]
                    list@.contains(x) <==> in_species_sector(x, sites as nat, sector)
            },
            Err(error) => error is InvalidSector && overfull(sites, sector),
        },
{
    let up_total: Option<usize> = if sector.0 == usize::MAX {
        None
    } else {
        Some(sector.0)
    };
    let down_total: Option<usize> = if sector.1 == usize::MAX {
        None
    } else {
        Some(sector.1)
    };
    let up_states: Vec<u128> = match states::fixed_weight_states(sites, up_total) {
        Ok(list) => list,
        Err(error) => {
            return Err(error);
        },
    };
    let down_states: Vec<u128> = match states::fixed_weight_states(sites, down_total) {
        Ok(list) => list,
        Err(error) => {
            return Err(error);
        },
    };
    let width: u128 = 1u128 << (sites as u32);
    let ghost n = sites as nat;
    let ghost w = radix::place(2, n);
    proof {
        states::lemma_power_of_two(sites);
        states::lemma_power_of_two(128);
        radix::lemma_place_add(2, n, n);
        radix::lemma_place_monotone(2, n + n, 128);
        radix::lemma_place_positive(2, n);
    }
    let mut list: Vec<u128> = Vec::new();
    let mut row: usize = 0;
    proof {
        assert(down_states@.subrange(0, 0) =~= Seq::<u128>::empty());
    }
    while row < down_states.len()
        invariant
            n == sites as nat,
            w == radix::place(2, n),
            width == w,
            w > 0,
            w * w <= u128::MAX + 1,
            row <= down_states.len(),
            states::lists_sector(up_states@, 2, n, up_total),
            states::lists_sector(down_states@, 2, n, down_total),
            states::ascending(list@),
            forall|x: u128| #[trigger]
                list@.contains(x) <==> up_states@.contains((x as nat % w) as u128)
                    && down_states@.subrange(0, row as int).contains((x as nat / w) as u128),
        decreases down_states.len() - row,
    {
        let down: u128 = down_states[row];
        assert(down_states@.contains(down));
        let ghost start = list@;
        let mut column: usize = 0;
        proof {
            assert(states::in_sector(down, 2, n, down_total));
            lemma_pair_bound(0, down as nat, w);
            assert(up_states@.subrange(0, 0) =~= Seq::<u128>::empty());
        }
        while column < up_states.len()
            invariant
                n == sites as nat,
                w == radix::place(2, n),
                width == w,
                w > 0,
                w * w <= u128::MAX + 1,
                row < down_states.len(),
                down == down_states[row as int],
                down < w,
                column <= up_states.len(),
                states::lists_sector(up_states@, 2, n, up_total),
                states::lists_sector(down_states@, 2, n, down_total),
                states::ascending(list@),
                forall|x: u128| #[trigger]
                    start.contains(x) <==> up_states@.contains((x as nat % w) as u128)
                        && down_states@.subrange(0, row as int).contains((x as nat / w) as u128),
                forall|x: u128| #[trigger]
                    list@.contains(x) <==> start.contains(x) || (x as nat / w == down
                        && up_states@.subrange(0, column as int).contains(
                        (x as nat % w) as u128,
                    )),
            decreases up_states.len() - column,
        {
            let up: u128 = up_states[column];
            let ghost before = list@;
            proof {
                assert(up_states@.contains(up));
                assert(states::in_sector(up, 2, n, up_total));
                lemma_pair_bound(up as nat, down as nat, w);
                lemma_mul_is_commutative(down as int, width as int);
            }
            let state: u128 = up + down * width;
            list.push(state);
            proof {
                lemma_pair_parts(up as nat, down as nat, w);
                states::lemma_contains_push(before, state);
                assert(up_states@.subrange(0, column + 1) =~= up_states@.subrange(
                    0,
                    column as int,
                ).push(up));
                states::lemma_contains_push(up_states@.subrange(0, column as int), up);
                assert forall|k: int| 0 <= k < before.len() implies #[trigger] before[k] < state by {
                    let y = before[k];
                    assert(before.contains(y));
                    lemma_fundamental_div_mod(y as int, w as int);
                    lemma_mod_bound(y as int, w as int);
                    if start.contains(y) {
                        let m = choose|m: int|
                            0 <= m < row && down_states@.subrange(0, row as int)[m] == (y as nat
                                / w) as u128;
                        assert(down_states@[m] < down_states@[row as int]);
                        lemma_quotient_small(y as nat, w);
                        lemma_pair_order(
                            y as nat % w,
                            y as nat / w,
                            up as nat,
                            down as nat,
                            w,
                        );
                    } else {
                        let m = choose|m: int|
                            0 <= m < column && up_states@.subrange(0, column as int)[m] == (y as nat
                                % w) as u128;
                        assert(up_states@[m] < up_states@[column as int]);
                    }
                }
                assert forall|x: u128| #[trigger] list@.contains(x) <==> start.contains(x) || (x as nat
                    / w == down && up_states@.subrange(0, column + 1).contains(
                    (x as nat % w) as u128,
                )) by {
                    if x as nat / w == down && (x as nat % w) as u128 == up {
                        lemma_fundamental_div_mod(x as int, w as int);
                        lemma_mod_bound(x as int, w as int);
                    }
                }
            }
            column = column + 1;
        }
        proof {
            assert(up_states@.subrange(0, column as int) =~= up_states@);
            assert(down_states@.subrange(0, row + 1) =~= down_states@.subrange(0, row as int).push(
                down,
            ));
            states::lemma_contains_push(down_states@.subrange(0, row as int), down);
            assert forall|x: u128| #[trigger] list@.contains(x) <==> up_states@.contains(
                (x as nat % w) as u128,
            ) && down_states@.subrange(0, row + 1).contains((x as nat / w) as u128) by {
                lemma_quotient_small(x as nat, w);
            }
        }
        row = row + 1;
    }
    proof {
        assert(down_states@.subrange(0, row as int) =~= down_states@);
        assert forall|x: u128| #[trigger] list@.contains(x) <==> in_species_sector(x, n, sector) by {
            assert(up_states@.contains((x as nat % w) as u128) <==> states::in_sector(
                (x as nat % w) as u128,
                2,
                n,
                up_total,
            ));
            assert(down_states@.contains((x as nat / w) as u128) <==> states::in_sector(
                (x as nat / w) as u128,
                2,
                n,
                down_total,
            ));
        }
    }
    Ok(list)
}

proof fn lemma_quotient_small(x: nat, w: nat)
    requires
        w > 0,
        x <= u128::MAX,
    ensures
        x / w <= u128::MAX,
        x % w <= u128::MAX,
{
    lemma_div_nonincreasing(x as int, w as int);
    lemma_mod_bound(x as int, w as int);
    lemma_mod_decreases(x, w);
}

proof fn lemma_pair_bound(up: nat, down: nat, w: nat)
    requires
        up < w || up == 0,
        down < w,
    ensures
        up + w * down < w * w,
        0 <= w * down,
{
    assert(up + w * down < w * w && 0 <= w * down) by (nonlinear_arith)
        requires
            up < w || up == 0,
            down + 1 <= w,
            0 <= down,
            0 <= up,
    ;
}

proof fn lemma_pair_parts(up: nat, down: nat, w: nat)
    requires
        up < w,
    ensures
        (up + down * w) % w == up,
        (up + down * w) / w == down,
{
    lemma_fundamental_div_mod_converse((up + down * w) as int, w as int, down as int, up as int);
}

proof fn lemma_pair_order(a: nat, b: nat, c: nat, d: nat, w: nat)
    requires
        a < w,
        b < d,
    ensures
        w * b + a < c + d * w,
{
    assert(w * b + a < c + d * w) by (nonlinear_arith)
        requires
            a < w,
            b + 1 <= d,
            0 <= c,
    ;
}

impl SpinfulFermionBasis1D {
    pub closed spec fn spec_sites(self) -> usize {
        self.sites
    }

    pub closed spec fn spec_particles_up(self) -> Option<usize> {
        self.particles_up
    }

    pub closed spec fn spec_particles_down(self) -> Option<usize> {
        self.particles_down
    }

    pub closed spec fn spec_union(self) -> Option<Seq<(usize, usize)>> {
        union_view(self.particle_sectors)
    }

    pub closed spec fn spec_states(self) -> Seq<u128> {
        self.states@
    }

    /// The sectors that the basis holds.
    pub open spec fn sectors(self) -> Seq<(usize, usize)> {
        requested_sectors(self.spec_particles_up(), self.spec_particles_down(), self.spec_union())
    }

    /// The basis lists exactly the states of its sectors.
    pub open spec fn wf(self) -> bool {
        &&& self.spec_sites() <= 64
        &&& forall|i: int|
            0 <= i < self.sectors().len() ==> !overfull(
                self.spec_sites(),
                #[trigger] self.sectors()[i],
            )
        &&& states::ascending(self.spec_states())
        &&& forall|x: u128| #[trigger]
            self.spec_states().contains(x) <==> in_some_sector(
                x,
                self.spec_sites() as nat,
                self.sectors(),
            )
    }

    /// The selection of a sector, by default all occupations of both species.
    pub fn builder(sites: usize) -> (builder: SpinfulFermionBasisBuilder)
        ensures
            builder.sites == sites,
            builder.particles_up is None,
            builder.particles_down is None,
            builder.particle_sectors is None,
    {
        SpinfulFermionBasisBuilder {
            sites,
            particles_up: None,
            particles_down: None,
            particle_sectors: None,
        }
    }

    pub fn sites(&self) -> (sites: usize)
        ensures
            sites == self.spec_sites(),
    {
        self.sites
    }

    pub fn particles_up(&self) -> (particles: Option<usize>)
        ensures
            particles == self.spec_particles_up(),
    {
        self.particles_up
    }

    pub fn particles_down(&self) -> (particles: Option<usize>)
        ensures
            particles == self.spec_particles_down(),
    {
        self.particles_down
    }

    pub fn particle_sectors(&self) -> (sectors: Option<&Vec<(usize, usize)>>)
        ensures
            match sectors {
                Some(list) => self.spec_union() == Some(list@),
                None => self.spec_union() is None,
            },
    {
        match &self.particle_sectors {
            Some(list) => Some(list),
            None => None,
        }
    }
}

impl SpinfulFermionBasisBuilder {
    pub fn particles_up(self, particles: usize) -> (builder: SpinfulFermionBasisBuilder)
        ensures
            builder == (SpinfulFermionBasisBuilder { particles_up: Some(particles), ..self }),
    {
        SpinfulFermionBasisBuilder { particles_up: Some(particles), ..self }
    }

    pub fn particles_down(self, particles: usize) -> (builder: SpinfulFermionBasisBuilder)
        ensures
            builder == (SpinfulFermionBasisBuilder { particles_down: Some(particles), ..self }),
    {
        SpinfulFermionBasisBuilder { particles_down: Some(particles), ..self }
    }

    pub fn particles(self, up: usize, down: usize) -> (builder: SpinfulFermionBasisBuilder)
        ensures
            builder.sites == self.sites,
            builder.particles_up == Some(up),
            builder.particles_down == Some(down),
            builder.particle_sectors is None,
    {
        SpinfulFermionBasisBuilder {
            sites: self.sites,
            particles_up: Some(up),
            particles_down: Some(down),
            particle_sectors: None,
        }
    }

    pub fn particle_sectors(self, sectors: Vec<(usize, usize)>) -> (builder:
        SpinfulFermionBasisBuilder)
        ensures
            builder.sites == self.sites,
            builder.particles_up is None,
            builder.particles_down is None,
            builder.particle_sectors == Some(sectors),
    {
        SpinfulFermionBasisBuilder {
            sites: self.sites,
            particles_up: None,
            particles_down: None,
            particle_sectors: Some(sectors),
        }
    }

    /// The requested sectors.
    pub open spec fn sectors(self) -> Seq<(usize, usize)> {
        requested_sectors(
            self.particles_up,
            self.particles_down,
            union_view(self.particle_sectors),
        )
    }

    /// The request names no sector, or a count that the lattice cannot hold.
    pub open spec fn unmeetable(self) -> bool {
        ||| self.sectors().len() == 0
        ||| exists|i: int|
            0 <= i < self.sectors().len() && overfull(self.sites, #[trigger] self.sectors()[i])
    }

    /// Builds the selected sector.
    pub fn build(self) -> (result: Result<SpinfulFermionBasis1D>)
        ensures
            match result {
                Ok(basis) => {
                    &&& self.sites <= 64
                    &&& !self.unmeetable()
                    &&& basis.wf()
                    &&& basis.spec_sites() == self.sites
                    &&& basis.spec_particles_up() == self.particles_up
                    &&& basis.spec_particles_down() == self.particles_down
                    &&& basis.spec_union() == union_view(self.particle_sectors)
                },
                Err(QmbedError::UnsupportedBackend(_)) => self.sites > 64,
                Err(QmbedError::InvalidSector(_)) => self.sites <= 64 && self.unmeetable(),
                Err(_) => false,
            },
    {
        if self.sites > 64 {
            return Err(
                QmbedError::UnsupportedBackend(
                    "the packed spinful backend supports at most 64 sites".to_string(),
                ),
            );
        }
        let ghost wanted = self.sectors();
        let mut sectors: Vec<(usize, usize)> = Vec::new();
        match &self.particle_sectors {
            Some(list) => {
                if list.len() == 0 {
                    return Err(
                        QmbedError::InvalidSector(
                            "spinful particle-sector union must be nonempty".to_string(),
                        ),
                    );
                }
                while sectors.len() < list.len()
                    invariant
                        sectors.len() <= list.len(),
                        sectors@ == list@.subrange(0, sectors.len() as int),
                    decreases list.len() - sectors.len(),
                {
                    sectors.push(list[sectors.len()]);
                }
                assert(list@.subrange(0, sectors.len() as int) =~= list@);
            },
            None => {
                let up: usize = match self.particles_up {
                    Some(count) => count,
                    None => usize::MAX,
                };
                let down: usize = match self.particles_down {
                    Some(count) => count,
                    None => usize::MAX,
                };
                sectors.push((up, down));
            },
        }
        assert(sectors@ =~= wanted);
        let ghost n = self.sites as nat;
        let mut all: Vec<u128> = Vec::new();
        let mut position: usize = 0;
        while position < sectors.len()
            invariant
                self.sites <= 64,
                n == self.sites as nat,
                wanted == self.sectors(),
                sectors@ == wanted,
                position <= sectors.len(),
                states::ascending(all@),
                forall|i: int|
                    0 <= i < position ==> !overfull(self.sites, #[trigger] sectors@[i]),
                forall|x: u128| #[trigger]
                    all@.contains(x) <==> in_some_sector(
                        x,
                        n,
                        sectors@.subrange(0, position as int),
                    ),
            decreases sectors.len() - position,
        {
            let part: Vec<u128> = match species_states(self.sites, sectors[position]) {
                Ok(list) => list,
                Err(error) => {
                    assert(overfull(self.sites, self.sectors()[position as int]));
                    return Err(error);
                },
            };
            let ghost before = sectors@.subrange(0, position as int);
            let ghost after = sectors@.subrange(0, position + 1);
            let ghost sector = sectors@[position as int];
            all = states::merge_ascending(&all, &part);
            proof {
                assert(after =~= before.push(sector));
                assert forall|x: u128| #[trigger] all@.contains(x) <==> in_some_sector(
                    x,
                    n,
                    after,
                ) by {
                    if in_some_sector(x, n, before) {
                        let i = choose|i: int|
                            0 <= i < before.len() && in_species_sector(x, n, #[trigger] before[i]);
                        assert(after[i] == before[i]);
                    }
                    assert(after[position as int] == sector);
                    if in_some_sector(x, n, after) {
                        let i = choose|i: int|
                            0 <= i < after.len() && in_species_sector(x, n, #[trigger] after[i]);
                        if i < before.len() {
                            assert(before[i] == after[i]);
                        }
                    }
                }
            }
            position = position + 1;
        }
        assert(sectors@.subrange(0, position as int) =~= sectors@);
        let SpinfulFermionBasisBuilder { sites, particles_up, particles_down, particle_sectors } =
            self;
        Ok(
            SpinfulFermionBasis1D {
                sites,
                particles_up,
                particles_down,
                particle_sectors,
                states: all,
            },
        )
    }
}

/// The operators of both species, the first `split` of a product acting on the up
/// species.
pub struct SpinfulAlgebra {
    pub sites: usize,
    pub split: usize,
}

/// The orbital on which the operator in place `position` acts.
pub open spec fn orbital_of(sites: usize, split: usize, position: nat, site: usize) -> nat {
    if position < split {
        site as nat
    } else {
        (sites + site) as nat
    }
}

impl LocalAlgebra for SpinfulAlgebra {
    type State = u128;

    open spec fn ready(&self) -> bool {
        self.sites <= 64
    }

    open spec fn valid_state(&self, state: u128) -> bool {
        true
    }

    open spec fn moves(
        &self,
        state: u128,
        symbol: char,
        position: nat,
        site: usize,
    ) -> LocalOutcome<u128> {
        if site >= self.sites {
            Err(local::Fault::Site { site, sites: self.sites })
        } else {
            fermion::fermion_moves(
                state,
                orbital_of(self.sites, self.split, position, site),
                symbol,
            )
        }
    }

    fn apply_symbol(&self, state: u128, symbol: char, position: usize, site: usize) -> (result:
        Result<Vec<Move<u128>>>) {
        if site >= self.sites {
            return Err(QmbedError::InvalidSite { site, sites: self.sites });
        }
        let orbital: usize = if position < self.split {
            site
        } else {
            self.sites + site
        };
        fermion::apply_fermion(state, orbital, symbol)
    }
}

/// A count as a signed number; an open count is minus one.
pub open spec fn signed_count(count: usize) -> int {
    if count == usize::MAX {
        -1
    } else {
        count as int
    }
}

/// The sector that the changes lead to from a sector.
pub open spec fn is_shifted(
    sites: usize,
    from: (usize, usize),
    to: (usize, usize),
    up_change: int,
    down_change: int,
) -> bool {
    &&& to.0 == signed_count(from.0) + up_change
    &&& to.1 == signed_count(from.1) + down_change
    &&& to.0 <= sites
    &&& to.1 <= sites
}

/// The changes lead from a sector to some sector of the union.
pub open spec fn leads_within(
    sites: usize,
    sectors: Seq<(usize, usize)>,
    from: (usize, usize),
    up_change: int,
    down_change: int,
) -> bool {
    exists|j: int|
        0 <= j < sectors.len() && is_shifted(
            sites,
            from,
            #[trigger] sectors[j],
            up_change,
            down_change,
        )
}

/// Every sector of the union is led to a sector of the union.
pub open spec fn union_is_kept(
    sites: usize,
    sectors: Seq<(usize, usize)>,
    up_change: int,
    down_change: int,
) -> bool {
    forall|i: int|
        0 <= i < sectors.len() ==> leads_within(
            sites,
            sectors,
            #[trigger] sectors[i],
            up_change,
            down_change,
        )
}

/// Whether an operator string of two species keeps the selected sectors.
pub open spec fn species_preservation(
    sites: usize,
    up: Option<usize>,
    down: Option<usize>,
    union: Option<Seq<(usize, usize)>>,
    operator: Seq<char>,
) -> std::result::Result<bool, Fault> {
    let up_change = notation::number_change(notation::text_before(operator));
    let down_change = notation::number_change(notation::text_behind(operator));
    let unrestricted = up is None && down is None && union is None;
    if notation::text_behind(operator).contains('|') {
        Err(Fault::Symbol)
    } else if up_change is Err {
        Err(Fault::Symbol)
    } else if up_change->Ok_0 is None {
        Ok(unrestricted)
    } else if down_change is Err {
        Err(Fault::Symbol)
    } else if down_change->Ok_0 is None {
        Ok(unrestricted)
    } else {
        let u = up_change->Ok_0->0;
        let d = down_change->Ok_0->0;
        match union {
            Some(sectors) => Ok(union_is_kept(sites, sectors, u, d)),
            None => Ok((up is None || u == 0) && (down is None || d == 0)),
        }
    }
}

fn union_check(sites: usize, sectors: &Vec<(usize, usize)>, up_change: i32, down_change: i32) -> (kept: bool)
    requires
        sites <= 64,
        forall|i: int| 0 <= i < sectors.len() ==> !overfull(sites, #[trigger] sectors[i]),
    ensures
        kept == union_is_kept(sites, sectors@, up_change as int, down_change as int),
{
    let mut i: usize = 0;
    while i < sectors.len()
        invariant
            sites <= 64,
            i <= sectors.len(),
            forall|k: int| 0 <= k < sectors.len() ==> !overfull(sites, #[trigger] sectors[k]),
            forall|k: int|
                0 <= k < i ==> leads_within(
                    sites,
                    sectors@,
                    #[trigger] sectors@[k],
                    up_change as int,
                    down_change as int,
                ),
        decreases sectors.len() - i,
    {
        assert(!overfull(sites, sectors[i as int]));
        let from: (usize, usize) = sectors[i];
        let up: i64 = (if from.0 == usize::MAX {
            -1
        } else {
            from.0 as i64
        }) + up_change as i64;
        let down: i64 = (if from.1 == usize::MAX {
            -1
        } else {
            from.1 as i64
        }) + down_change as i64;
        let mut met: bool = false;
        let mut j: usize = 0;
        while j < sectors.len() && !met
            invariant
                sites <= 64,
                i < sectors.len(),
                j <= sectors.len(),
                from == sectors@[i as int],
                up == signed_count(from.0) + up_change,
                down == signed_count(from.1) + down_change,
                forall|k: int| 0 <= k < sectors.len() ==> !overfull(sites, #[trigger] sectors[k]),
                met ==> j < sectors.len() && is_shifted(
                    sites,
                    sectors@[i as int],
                    sectors@[j as int],
                    up_change as int,
                    down_change as int,
                ),
                !met ==> forall|k: int|
                    0 <= k < j ==> !is_shifted(
                        sites,
                        sectors@[i as int],
                        #[trigger] sectors@[k],
                        up_change as int,
                        down_change as int,
                    ),
            decreases sectors.len() - j + (if met {
                0int
            } else {
                1int
            }),
        {
            assert(!overfull(sites, sectors[j as int]));
            let to: (usize, usize) = sectors[j];
            if to.0 <= sites && to.1 <= sites && to.0 as i64 == up && to.1 as i64 == down {
                met = true;
            } else {
                j = j + 1;
            }
        }
        if !met {
            assert(!leads_within(
                sites,
                sectors@,
                sectors@[i as int],
                up_change as int,
                down_change as int,
            ));
            return false;
        }
        i = i + 1;
    }
    true
}

impl Basis for SpinfulFermionBasis1D {
    type State = u128;

    open spec fn well_formed(&self) -> bool {
        self.wf()
    }

    open spec fn listed(&self) -> Seq<u128> {
        self.spec_states()
    }

    open spec fn accepts(&self, state: u128) -> bool {
        true
    }

    open spec fn action(
        &self,
        state: u128,
        symbols: Seq<char>,
        split: Option<usize>,
        sites: Seq<usize>,
    ) -> ProductOutcome<u128> {
        let cut = match split {
            Some(position) => position,
            None => symbols.len() as usize,
        };
        if cut > symbols.len() {
            Err(Fault::Arity)
        } else {
            local::operator_action(
                &SpinfulAlgebra { sites: self.spec_sites(), split: cut },
                state,
                symbols,
                sites,
            )
        }
    }

    open spec fn distinct(&self) -> bool {
        true
    }

    open spec fn seat(&self, state: u128) -> int {
        self.listed().index_of(state)
    }

    proof fn lemma_seat(&self, state: u128) {
    }

    proof fn lemma_distinct(&self) {
        assert(self.listed().no_duplicates()) by {
            let list = self.listed();
            assert forall|i: int, j: int|
                0 <= i < list.len() && 0 <= j < list.len() && i != j implies list[i] != list[j] by {
                if i < j {
                    assert(list[i] < list[j]);
                } else {
                    assert(list[j] < list[i]);
                }
            }
        }
    }

    open spec fn orbit_weight(&self, state: u128) -> nat {
        1
    }

    open spec fn landing(&self, state: u128, source_orbit: usize) -> Option<Landing> {
        boson::plain_landing(self.spec_states(), state)
    }

    open spec fn two_parts(&self) -> bool {
        false
    }

    fn needs_separator(&self) -> (needed: bool) {
        false
    }

    open spec fn orbit_reduced(&self) -> bool {
        false
    }

    fn is_orbit_reduced(&self) -> (reduced: bool) {
        false
    }

    fn len(&self) -> (length: usize) {
        self.states.len()
    }

    fn state(&self, index: usize) -> (result: Result<u128>) {
        if index < self.states.len() {
            Ok(self.states[index])
        } else {
            Err(QmbedError::StateNotInBasis)
        }
    }

    fn index(&self, state: u128) -> (result: Result<usize>) {
        let result: Result<usize> = states::state_index(&self.states, state);
        proof {
            self.lemma_distinct();
            if let Ok(index) = &result {
                basis::lemma_one_place(self.listed(), *index as int);
            }
        }
        result
    }

    fn unreduced_transitions(
        &self,
        state: u128,
        symbols: &[char],
        split: Option<usize>,
        sites: &[usize],
    ) -> (result: Result<Vec<Transition<u128>>>) {
        let cut: usize = match split {
            Some(position) => position,
            None => symbols.len(),
        };
        if cut > symbols.len() {
            return Err(
                QmbedError::InvalidCoupling("operator split exceeds its arity".to_string()),
            );
        }
        local::apply_product(&SpinfulAlgebra { sites: self.sites, split: cut }, state, symbols, sites)
    }

    fn transition_orbit_size(&self, state: u128) -> (result: Result<usize>) {
        Ok(1)
    }

    open spec fn preservation(&self, operator: Seq<char>) -> std::result::Result<bool, Fault> {
        species_preservation(
            self.spec_sites(),
            self.spec_particles_up(),
            self.spec_particles_down(),
            self.spec_union(),
            operator,
        )
    }

    fn operator_preserves_particle_sector(&self, operator: &str) -> (result: Result<bool>) {
        let chars: Vec<char> = notation::text_chars(operator);
        let ghost text = operator@;
        assert(chars@.subrange(0, chars.len() as int) =~= text);
        let cut: usize = notation::find_separator(&chars, 0);
        let rest: usize = if cut < chars.len() {
            cut + 1
        } else {
            chars.len()
        };
        assert(chars@.subrange(rest as int, chars.len() as int) =~= notation::text_behind(text));
        if notation::find_separator(&chars, rest) < chars.len() {
            return Err(QmbedError::InvalidOperator(operator.to_string()));
        }
        let open: bool = self.particles_up.is_none() && self.particles_down.is_none()
            && self.particle_sectors.is_none();
        let up_change: i32 = match notation::part_number_change(&chars, 0, cut) {
            Ok(Some(change)) => change,
            Ok(None) => {
                return Ok(open);
            },
            Err(error) => {
                return Err(error);
            },
        };
        let down_change: i32 = match notation::part_number_change(&chars, rest, chars.len()) {
            Ok(Some(change)) => change,
            Ok(None) => {
                return Ok(open);
            },
            Err(error) => {
                return Err(error);
            },
        };
        match &self.particle_sectors {
            Some(sectors) => {
                assert(self.sectors() == sectors@);
                Ok(union_check(self.sites, sectors, up_change, down_change))
            },
            None => Ok(
                (self.particles_up.is_none() || up_change == 0) && (self.particles_down.is_none()
                    || down_change == 0),
            ),
        }
    }

    fn index_transition(&self, state: u128, source_orbit_size: usize) -> (result: Option<
        Landing,
    >) {
        boson::find_plain_landing(&self.states, state)
    }
}

} // verus!
