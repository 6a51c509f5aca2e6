//! The algebra of the boson operators.

use vstd::prelude::*;
use vstd::arithmetic::div_mod::*;
use crate::boson::BosonBasis1D;
use crate::local::{LocalAlgebra, LocalFactor};
use crate::radix;
use crate::reading;
use crate::spin;

verus! {

proof fn lemma_occupations(basis: &BosonBasis1D, state: u128, site: usize)
    requires
        basis.ready(),
        basis.valid_state(state),
        site < basis.spec_sites(),
    ensures
        ({
            let b = basis.spec_states_per_site() as nat;
            let n = basis.spec_sites() as nat;
            let s = state as nat;
            let d = radix::digit(s, b, site as nat);
            let p = radix::place(b, site as nat);
            &&& p > 0
            &&& d < b
            &&& d + 1 < b ==> {
                &&& s + p <= u128::MAX
                &&& basis.valid_state((s + p) as u128)
                &&& radix::digit(s + p, b, site as nat) == d + 1
                &&& radix::digits(s + p, b, n) == radix::digits(s, b, n).update(site as int, d + 1)
            }
            &&& d > 0 ==> {
                &&& p <= s
                &&& basis.valid_state((s - p) as u128)
                &&& radix::digit((s - p) as nat, b, site as nat) == d - 1
                &&& radix::digits((s - p) as nat, b, n) == radix::digits(s, b, n).update(
                    site as int,
                    (d - 1) as nat,
                )
            }
        }),
{
    let b = basis.spec_states_per_site() as nat;
    let n = basis.spec_sites() as nat;
    let s = state as nat;
    let i = site as nat;
    let d = radix::digit(s, b, i);
    let p = radix::place(b, i);
    radix::lemma_place_positive(b, i);
    lemma_mod_bound((s / p) as int, b as int);
    if d + 1 < b {
        radix::lemma_raise_digit(s, b, i, n);
        spin::lemma_block(state, s + p, b, n);
        assert(radix::digits(s + p, b, n)[i as int] == radix::digit(s + p, b, i));
    }
    if d > 0 {
        radix::lemma_lower_digit(s, b, i, n);
        spin::lemma_block(state, (s - p) as nat, b, n);
        assert(radix::digits((s - p) as nat, b, n)[i as int] == radix::digit(
            (s - p) as nat,
            b,
            i,
        ));
    }
}

/// The creation operator adds one particle to the site unless the cutoff forbids it, the
/// annihilation operator removes one, no other site changes, and the matrix elements are
/// positive. Annihilating and creating again is what the number operator does; below the
/// cutoff creating and annihilating again is what it does and one more, at the cutoff it
/// gives nothing.
pub proof fn bosons_have_their_algebra(
    basis: &BosonBasis1D,
    state: u128,
    position: nat,
    site: usize,
)
    requires
        basis.ready(),
        basis.valid_state(state),
        site < basis.spec_sites(),
    ensures
        ({
            let b = basis.spec_states_per_site() as nat;
            let n = basis.spec_sites() as nat;
            let before = radix::digits(state as nat, b, n);
            let here = before[site as int];
            let create = basis.moves(state, '+', position, site);
            let annihilate = basis.moves(state, '-', position, site);
            let particles = reading::round_trip(basis, state, '-', '+', position, site);
            let more = reading::round_trip(basis, state, '+', '-', position, site);
            let number = reading::element_of(basis, state, 'n', position, site, state, 1);
            &&& create matches Ok(list) && list.len() == (if here + 1 < b {
                1int
            } else {
                0
            })
            &&& annihilate matches Ok(list) && list.len() == (if here > 0 {
                1int
            } else {
                0
            })
            &&& here + 1 < b ==> {
                &&& radix::digits(create->Ok_0[0].0 as nat, b, n) == before.update(
                    site as int,
                    here + 1,
                )
                &&& reading::positive(create->Ok_0[0].1)
            }
            &&& here > 0 ==> {
                &&& radix::digits(annihilate->Ok_0[0].0 as nat, b, n) == before.update(
                    site as int,
                    (here - 1) as nat,
                )
                &&& reading::positive(annihilate->Ok_0[0].1)
            }
            &&& reading::acts(basis, state, 'n', position, site)
            &&& particles == Some(number.plus(number))
            &&& here + 1 < b ==> more == Some(number.plus(number).plus(reading::whole(4)))
            &&& here + 1 == b ==> more == Some(reading::whole(0))
            &&& number == reading::whole(2 * (here as int))
            &&& basis.moves(state, 'I', position, site) matches Ok(list) && list == seq![
                (state, None::<LocalFactor>),
            ]
        }),
{
    lemma_occupations(basis, state, site);
    let b = basis.spec_states_per_site() as nat;
    let p = radix::place(b, site as nat);
    let d = radix::digit(state as nat, b, site as nat);
    reading::lemma_element_one(basis.moves(state, 'n', position, site)->Ok_0, state, 1);
    reading::lemma_squares(d as int);
    reading::lemma_squares(d as int + 1);
    if d + 1 < b {
        lemma_occupations(basis, (state + p) as u128, site);
    }
    if d > 0 {
        lemma_occupations(basis, (state - p) as u128, site);
    }
}

/// The annihilation operator is the adjoint of the creation operator, and the number
/// operator leads nowhere else.
pub proof fn boson_ladders_are_adjoint(
    basis: &BosonBasis1D,
    state: u128,
    position: nat,
    site: usize,
    target: u128,
    radicand: u128,
)
    requires
        basis.ready(),
        basis.valid_state(state),
        basis.valid_state(target),
        site < basis.spec_sites(),
    ensures
        reading::element_of(basis, state, '+', position, site, target, radicand)
            == reading::element_of(
            basis,
            target,
            '-',
            position,
            site,
            state,
            radicand,
        ).conjugate(),
        target != state || radicand != 1 ==> reading::element_of(
            basis,
            state,
            'n',
            position,
            site,
            target,
            radicand,
        ) == reading::whole(0),
{
    lemma_occupations(basis, state, site);
    lemma_occupations(basis, target, site);
    reading::lemma_element_one(
        basis.moves(state, '+', position, site)->Ok_0,
        target,
        radicand,
    );
    reading::lemma_element_one(
        basis.moves(target, '-', position, site)->Ok_0,
        state,
        radicand,
    );
    reading::lemma_element_one(
        basis.moves(state, 'n', position, site)->Ok_0,
        target,
        radicand,
    );
}

} // verus!
