//! The algebra of the fermion operators.

use vstd::prelude::*;
use crate::conservation;
use crate::fermion::SpinlessFermionBasis1D;
use crate::fermion;
use crate::local::{LocalAlgebra, LocalFactor};
use crate::radix;
use crate::reading;
use crate::spinful::SpinfulAlgebra;

verus! {

/// The occupations of all orbitals.
pub open spec fn occupations(state: u128) -> Seq<nat> {
    radix::digits(state as nat, 2, 128)
}

/// The creation operator fills the orbital where it is empty, the annihilation operator
/// empties it where it is filled, no other orbital changes, and there is no other outcome.
pub open spec fn moves_one_particle<A: LocalAlgebra<State = u128>>(
    algebra: &A,
    state: u128,
    position: nat,
    site: usize,
    orbital: int,
) -> bool {
    let create = algebra.moves(state, '+', position, site);
    let annihilate = algebra.moves(state, '-', position, site);
    let before = occupations(state);
    &&& create is Ok
    &&& annihilate is Ok
    &&& before[orbital] == 0 || before[orbital] == 1
    &&& before[orbital] == 0 ==> {
        &&& create->Ok_0.len() == 1
        &&& occupations(create->Ok_0[0].0) == before.update(orbital, 1)
        &&& annihilate->Ok_0.len() == 0
    }
    &&& before[orbital] == 1 ==> {
        &&& create->Ok_0.len() == 0
        &&& annihilate->Ok_0.len() == 1
        &&& occupations(annihilate->Ok_0[0].0) == before.update(orbital, 0)
    }
}

/// Annihilating and creating again counts the particle on the orbital; creating and
/// annihilating again counts the hole.
pub open spec fn counts_particles<A: LocalAlgebra<State = u128>>(
    algebra: &A,
    state: u128,
    position: nat,
    site: usize,
    orbital: int,
) -> bool {
    let count = algebra.moves(state, 'n', position, site);
    let particle = reading::round_trip(algebra, state, '-', '+', position, site);
    let hole = reading::round_trip(algebra, state, '+', '-', position, site);
    &&& count is Ok
    &&& particle is Some
    &&& hole is Some
    &&& particle->0.plus(hole->0) == reading::whole(4)
    &&& particle->0 == reading::whole(4) ==> count->Ok_0 == seq![(state, None::<LocalFactor>)]
    &&& particle->0 == reading::whole(0) ==> count->Ok_0 == Seq::<
        (u128, Option<LocalFactor>),
    >::empty()
    &&& particle->0 == reading::whole(4 * (occupations(state)[orbital] as int))
}

/// In every matrix element: `x + i y` is twice the creation operator, `x - i y` twice the
/// annihilation operator, and `z` is twice the number minus one.
pub open spec fn combines_components<A: LocalAlgebra<State = u128>>(
    algebra: &A,
    state: u128,
    position: nat,
    site: usize,
    target: u128,
    radicand: u128,
) -> bool {
    let of = |symbol: char|
        reading::element_of(algebra, state, symbol, position, site, target, radicand);
    &&& reading::acts(algebra, state, 'x', position, site)
    &&& reading::acts(algebra, state, 'y', position, site)
    &&& reading::acts(algebra, state, 'z', position, site)
    &&& reading::acts(algebra, state, 'I', position, site)
    &&& of('x').plus(of('y').turned()) == of('+').plus(of('+'))
    &&& of('x').less(of('y').turned()) == of('-').plus(of('-'))
    &&& of('z').plus(of('I')) == of('n').plus(of('n'))
    &&& of('I') == (if target == state && radicand == 1 {
        reading::whole(2)
    } else {
        reading::whole(0)
    })
}

/// The annihilation operator is the adjoint of the creation operator.
pub open spec fn adjoint_ladders<A: LocalAlgebra<State = u128>>(
    algebra: &A,
    state: u128,
    position: nat,
    site: usize,
    target: u128,
    radicand: u128,
) -> bool {
    reading::element_of(algebra, state, '+', position, site, target, radicand)
        == reading::element_of(algebra, target, '-', position, site, state, radicand).conjugate()
}

/// The two states differ in the occupation of one other orbital.
pub open spec fn differ_in(state: u128, other: u128, orbital: int) -> bool {
    &&& 0 <= orbital < 128
    &&& occupations(state)[orbital] != occupations(other)[orbital]
    &&& forall|i: int|
        0 <= i < 128 && i != orbital ==> #[trigger] occupations(state)[i] == occupations(other)[i]
}

proof fn lemma_flip(state: u128, orbital: nat)
    requires
        orbital < 128,
    ensures
        ({
            let flipped = fermion::toggled(state as nat, orbital);
            &&& flipped <= u128::MAX
            &&& fermion::toggled(flipped, orbital) == state
            &&& occupations(state)[orbital as int] == (if fermion::occupied(
                state as nat,
                orbital,
            ) {
                1nat
            } else {
                0
            })
            &&& occupations(flipped as u128) == occupations(state).update(
                orbital as int,
                if fermion::occupied(state as nat, orbital) {
                    0
                } else {
                    1
                },
            )
            &&& fermion::occupied(flipped, orbital) != fermion::occupied(state as nat, orbital)
            &&& fermion::odd_below(flipped, orbital) == fermion::odd_below(state as nat, orbital)
        }),
{
    fermion::lemma_toggled_fits(state, orbital);
    conservation::lemma_toggle(state, orbital, orbital);
    radix::lemma_digits_valid(state as nat, 2, 128);
    if fermion::occupied(state as nat, orbital) {
        radix::lemma_lower_digit(state as nat, 2, orbital, 128);
    } else {
        radix::lemma_raise_digit(state as nat, 2, orbital, 128);
    }
}

proof fn lemma_one_orbital<A: LocalAlgebra<State = u128>>(
    algebra: &A,
    state: u128,
    position: nat,
    site: usize,
    orbital: nat,
    target: u128,
    radicand: u128,
)
    requires
        orbital < 128,
        forall|s: u128, symbol: char| #[trigger]
            algebra.moves(s, symbol, position, site) == fermion::fermion_moves(s, orbital, symbol),
    ensures
        moves_one_particle(algebra, state, position, site, orbital as int),
        counts_particles(algebra, state, position, site, orbital as int),
        combines_components(algebra, state, position, site, target, radicand),
        adjoint_ladders(algebra, state, position, site, target, radicand),
{
    lemma_flip(state, orbital);
    lemma_flip(target, orbital);
    let flipped = fermion::toggled(state as nat, orbital) as u128;
    lemma_flip(flipped, orbital);
    reading::lemma_squares(1);
    assert forall|s: u128, t: u128, symbol: char|
        #![trigger reading::element_of(algebra, s, symbol, position, site, t, radicand)]
        algebra.moves(s, symbol, position, site) is Ok implies reading::element_of(
        algebra,
        s,
        symbol,
        position,
        site,
        t,
        radicand,
    ) == ({
        let list = algebra.moves(s, symbol, position, site)->Ok_0;
        if list.len() == 1 && list[0].0 == t && reading::rooted(list[0].1) == radicand {
            reading::doubled(list[0].1)
        } else {
            reading::whole(0)
        }
    }) by {
        reading::lemma_element_one(
            algebra.moves(s, symbol, position, site)->Ok_0,
            t,
            radicand,
        );
    }
}

/// On every orbital of a ring of fermions: what the operators do to the occupations, that
/// annihilating and creating again is what the number operator does, that the components
/// combine to the ladder operators, and that these are adjoint to each other.
pub proof fn fermions_have_their_algebra(
    basis: &SpinlessFermionBasis1D,
    state: u128,
    position: nat,
    site: usize,
    target: u128,
    radicand: u128,
)
    requires
        basis.ready(),
        site < basis.spec_sites(),
    ensures
        moves_one_particle(basis, state, position, site, site as int),
        counts_particles(basis, state, position, site, site as int),
        combines_components(basis, state, position, site, target, radicand),
        adjoint_ladders(basis, state, position, site, target, radicand),
{
    lemma_one_orbital(basis, state, position, site, site as nat, target, radicand);
}

/// The same for both species of fermions with spin: the symbols before the split act on the
/// lower orbitals, those behind it on the upper ones.
pub proof fn species_have_their_algebra(
    algebra: &SpinfulAlgebra,
    state: u128,
    position: nat,
    site: usize,
    target: u128,
    radicand: u128,
)
    requires
        algebra.ready(),
        site < algebra.sites,
    ensures
        ({
            let orbital = if position < algebra.split {
                site as int
            } else {
                algebra.sites + site
            };
            &&& moves_one_particle(algebra, state, position, site, orbital)
            &&& counts_particles(algebra, state, position, site, orbital)
            &&& combines_components(algebra, state, position, site, target, radicand)
            &&& adjoint_ladders(algebra, state, position, site, target, radicand)
        }),
{
    let orbital: nat = if position < algebra.split {
        site as nat
    } else {
        (algebra.sites + site) as nat
    };
    lemma_one_orbital(algebra, state, position, site, orbital, target, radicand);
}

proof fn lemma_differ(state: u128, other: u128, orbital: int)
    requires
        differ_in(state, other, orbital),
    ensures
        other == fermion::toggled(state as nat, orbital as nat),
{
    lemma_flip(state, orbital as nat);
    let flipped = fermion::toggled(state as nat, orbital as nat) as u128;
    radix::lemma_digits_valid(state as nat, 2, 128);
    radix::lemma_digits_valid(other as nat, 2, 128);
    assert(occupations(flipped) =~= occupations(other));
    crate::states::lemma_power_of_two(128);
    radix::lemma_value_of_digits(flipped as nat, 2, 128);
    radix::lemma_value_of_digits(other as nat, 2, 128);
}

/// A particle on a lower orbital inverts the sign with which a particle is created on an
/// orbital, and one on a higher orbital does not; into the vacuum it is created with the
/// factor one.
pub proof fn lower_particles_invert_signs(
    basis: &SpinlessFermionBasis1D,
    state: u128,
    other: u128,
    position: nat,
    site: usize,
    elsewhere: int,
)
    requires
        basis.ready(),
        site < basis.spec_sites(),
        differ_in(state, other, elsewhere),
        elsewhere != site,
        occupations(state)[site as int] == 0,
    ensures
        ({
            let here = basis.moves(state, '+', position, site);
            let there = basis.moves(other, '+', position, site);
            let vacuum = basis.moves(0, '+', position, site);
            &&& here is Ok && here->Ok_0.len() == 1
            &&& there is Ok && there->Ok_0.len() == 1
            &&& reading::rooted(here->Ok_0[0].1) == 1
            &&& reading::rooted(there->Ok_0[0].1) == 1
            &&& reading::doubled(there->Ok_0[0].1) == reading::doubled(
                here->Ok_0[0].1,
            ).scaled(
                if elsewhere < site {
                    -1
                } else {
                    1
                },
            )
            &&& vacuum is Ok && vacuum->Ok_0.len() == 1
            &&& reading::doubled(vacuum->Ok_0[0].1) == reading::whole(2)
        }),
{
    lemma_differ(state, other, elsewhere);
    conservation::lemma_toggle(state, elsewhere as nat, site as nat);
    lemma_flip(state, site as nat);
    lemma_flip(other, site as nat);
    lemma_flip(0, site as nat);
    radix::lemma_digit_sum_zero(2, site as nat);
    radix::lemma_place_positive(2, site as nat);
    assert(radix::digit(0, 2, site as nat) == 0) by {
        vstd::arithmetic::div_mod::lemma_div_of0(radix::place(2, site as nat) as int);
    }
    let factor = reading::doubled(basis.moves(state, '+', position, site)->Ok_0[0].1);
    assert(factor.scaled(-1) == reading::whole(-factor.re));
    assert(factor.scaled(1) == factor);
}

} // verus!
