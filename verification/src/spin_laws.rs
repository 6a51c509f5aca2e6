//! The algebra of the spin operators.

use vstd::prelude::*;
use vstd::arithmetic::div_mod::*;
use vstd::arithmetic::mul::*;
use crate::local::{LocalAlgebra, LocalFactor};
use crate::radix;
use crate::reading;
use crate::spin::{SpinBasis1D, SpinNormalization};
use crate::spin;

verus! {

/// The raising and lowering operators are this part of the sum of the components.
pub open spec fn ladder_units(normalization: SpinNormalization) -> int {
    if normalization == SpinNormalization::PauliCartesian {
        2
    } else {
        1
    }
}

/// The operators are this multiple of the angular momentum.
pub open spec fn component_units(normalization: SpinNormalization) -> int {
    if normalization == SpinNormalization::AngularMomentum {
        1
    } else {
        2
    }
}

spec fn usable(basis: &SpinBasis1D, state: u128, site: usize) -> bool {
    &&& basis.ready()
    &&& basis.valid_state(state)
    &&& site < basis.spec_sites()
}

/// Raising and lowering a level stays within the encoding and changes no other level.
proof fn lemma_levels(basis: &SpinBasis1D, state: u128, site: usize)
    requires
        usable(basis, state, site),
    ensures
        ({
            let b = basis.base();
            let n = basis.spec_sites() as nat;
            let s = state as nat;
            let d = radix::digit(s, b, site as nat);
            let p = radix::place(b, site as nat);
            &&& p > 0
            &&& d < b
            &&& 0 <= spin::raising_radicand((b - 1) as nat, d) <= 0x1_0000_0000
            &&& 0 <= spin::lowering_radicand((b - 1) as nat, d) <= 0x1_0000_0000
            &&& d + 1 < b ==> {
                &&& s + p <= u128::MAX
                &&& basis.valid_state((s + p) as u128)
                &&& radix::digit(s + p, b, site as nat) == d + 1
                &&& radix::digits(s + p, b, n) == radix::digits(s, b, n).update(site as int, d + 1)
            }
            &&& d > 0 ==> {
                &&& p <= s
                &&& basis.valid_state((s - p) as u128)
                &&& radix::digit((s - p) as nat, b, site as nat) == d - 1
                &&& radix::digits((s - p) as nat, b, n) == radix::digits(s, b, n).update(
                    site as int,
                    (d - 1) as nat,
                )
            }
        }),
{
    let b = basis.base();
    let n = basis.spec_sites() as nat;
    let s = state as nat;
    let i = site as nat;
    let d = radix::digit(s, b, i);
    let p = radix::place(b, i);
    radix::lemma_place_positive(b, i);
    lemma_mod_bound((s / p) as int, b as int);
    spin::lemma_radicands(basis.spec_spin_twice(), d);
    if d + 1 < b {
        radix::lemma_raise_digit(s, b, i, n);
        spin::lemma_block(state, s + p, b, n);
        assert(radix::digits(s + p, b, n)[i as int] == radix::digit(s + p, b, i));
    }
    if d > 0 {
        radix::lemma_lower_digit(s, b, i, n);
        spin::lemma_block(state, (s - p) as nat, b, n);
        assert(radix::digits((s - p) as nat, b, n)[i as int] == radix::digit(
            (s - p) as nat,
            b,
            i,
        ));
    }
}

/// The raising operator is the `x` component plus `i` times the `y` component, and the
/// lowering operator is the `x` component minus `i` times the `y` component, in every matrix
/// element.
pub proof fn ladders_combine_components(
    basis: &SpinBasis1D,
    state: u128,
    position: nat,
    site: usize,
    target: u128,
    radicand: u128,
)
    requires
        basis.ready(),
        basis.valid_state(state),
        site < basis.spec_sites(),
    ensures
        ({
            let x = reading::element_of(basis, state, 'x', position, site, target, radicand);
            let y = reading::element_of(basis, state, 'y', position, site, target, radicand);
            let up = reading::element_of(basis, state, '+', position, site, target, radicand);
            let down = reading::element_of(basis, state, '-', position, site, target, radicand);
            let units = ladder_units(basis.spec_normalization());
            &&& reading::acts(basis, state, 'x', position, site)
            &&& reading::acts(basis, state, 'y', position, site)
            &&& reading::acts(basis, state, '+', position, site)
            &&& reading::acts(basis, state, '-', position, site)
            &&& x.plus(y.turned()) == up.scaled(units)
            &&& x.less(y.turned()) == down.scaled(units)
        }),
{
    lemma_levels(basis, state, site);
    let x = basis.moves(state, 'x', position, site)->Ok_0;
    let y = basis.moves(state, 'y', position, site)->Ok_0;
    let up = basis.moves(state, '+', position, site)->Ok_0;
    let down = basis.moves(state, '-', position, site)->Ok_0;
    reading::lemma_element_one(up, target, radicand);
    reading::lemma_element_one(down, target, radicand);
    let ups = reading::element(up, target, radicand);
    let downs = reading::element(down, target, radicand);
    reading::lemma_multiples(ups);
    reading::lemma_multiples(downs);
    if x.len() == 2 {
        reading::lemma_element_two(x, target, radicand);
        reading::lemma_element_two(y, target, radicand);
        reading::lemma_element_one(seq![x[0]], target, radicand);
        reading::lemma_element_one(seq![x[1]], target, radicand);
        reading::lemma_element_one(seq![y[0]], target, radicand);
        reading::lemma_element_one(seq![y[1]], target, radicand);
    } else {
        reading::lemma_element_one(x, target, radicand);
        reading::lemma_element_one(y, target, radicand);
    }
}

/// The raising operator leads from a state to the one with the next level on the site and
/// the same levels elsewhere, unless the level is the highest; the lowering operator undoes
/// such a step. Their matrix elements are positive.
pub proof fn ladders_change_one_level(
    basis: &SpinBasis1D,
    state: u128,
    position: nat,
    site: usize,
)
    requires
        basis.ready(),
        basis.valid_state(state),
        site < basis.spec_sites(),
    ensures
        ({
            let b = basis.base();
            let n = basis.spec_sites() as nat;
            let levels = radix::digits(state as nat, b, n);
            let level = levels[site as int];
            let up = basis.moves(state, '+', position, site);
            let down = basis.moves(state, '-', position, site);
            &&& up matches Ok(list) && list.len() == (if level + 1 < b {
                1int
            } else {
                0
            })
            &&& down matches Ok(list) && list.len() == (if level > 0 {
                1int
            } else {
                0
            })
            &&& level + 1 < b ==> {
                &&& radix::digits(up->Ok_0[0].0 as nat, b, n) == levels.update(
                    site as int,
                    level + 1,
                )
                &&& reading::positive(up->Ok_0[0].1)
            }
            &&& level > 0 ==> {
                &&& radix::digits(down->Ok_0[0].0 as nat, b, n) == levels.update(
                    site as int,
                    (level - 1) as nat,
                )
                &&& reading::positive(down->Ok_0[0].1)
            }
        }),
{
    lemma_levels(basis, state, site);
    let b = basis.base();
    let d = radix::digit(state as nat, b, site as nat) as int;
    if d + 1 < b {
        assert((d + 1) * (b - 1 - d) > 0) by (nonlinear_arith)
            requires
                0 <= d,
                d + 1 < b,
        ;
    }
    if d > 0 {
        assert(d * (b - 1 - d + 1) > 0) by (nonlinear_arith)
            requires
                0 < d < b,
        ;
    }
}

/// The lowering operator is the adjoint of the raising operator.
pub proof fn ladders_are_adjoint(
    basis: &SpinBasis1D,
    state: u128,
    position: nat,
    site: usize,
    target: u128,
    radicand: u128,
)
    requires
        basis.ready(),
        basis.valid_state(state),
        basis.valid_state(target),
        site < basis.spec_sites(),
    ensures
        reading::element_of(basis, state, '+', position, site, target, radicand)
            == reading::element_of(
            basis,
            target,
            '-',
            position,
            site,
            state,
            radicand,
        ).conjugate(),
{
    lemma_levels(basis, state, site);
    lemma_levels(basis, target, site);
    let b = basis.base();
    let d = radix::digit(state as nat, b, site as nat);
    let e = radix::digit(target as nat, b, site as nat);
    let up = basis.moves(state, '+', position, site)->Ok_0;
    let down = basis.moves(target, '-', position, site)->Ok_0;
    reading::lemma_element_one(up, target, radicand);
    reading::lemma_element_one(down, state, radicand);
    let twice = (b - 1) as nat;
    if d + 1 < b && target == state + radix::place(b, site as nat) {
        assert(e == d + 1);
        assert(spin::raising_radicand(twice, d) == spin::lowering_radicand(twice, e));
    }
    if e > 0 && state == target - radix::place(b, site as nat) {
        assert(d == e - 1);
        assert(spin::raising_radicand(twice, d) == spin::lowering_radicand(twice, e));
    }
}

/// The components are Hermitian.
pub proof fn components_are_hermitian(
    basis: &SpinBasis1D,
    state: u128,
    symbol: char,
    position: nat,
    site: usize,
    target: u128,
    radicand: u128,
)
    requires
        basis.ready(),
        basis.valid_state(state),
        basis.valid_state(target),
        site < basis.spec_sites(),
        symbol == 'x' || symbol == 'y' || symbol == 'z' || symbol == 'I',
    ensures
        reading::element_of(basis, state, symbol, position, site, target, radicand)
            == reading::element_of(
            basis,
            target,
            symbol,
            position,
            site,
            state,
            radicand,
        ).conjugate(),
{
    if symbol == 'x' || symbol == 'y' {
        ladders_combine_components(basis, state, position, site, target, radicand);
        ladders_combine_components(basis, target, position, site, state, radicand);
        ladders_are_adjoint(basis, state, position, site, target, radicand);
        ladders_are_adjoint(basis, target, position, site, state, radicand);
    } else {
        let forth = basis.moves(state, symbol, position, site)->Ok_0;
        let back = basis.moves(target, symbol, position, site)->Ok_0;
        reading::lemma_element_one(forth, target, radicand);
        reading::lemma_element_one(back, state, radicand);
    }
}

/// The commutator of the raising and the lowering operator is twice the `z` component, and
/// raising a level adds one to the `z` component, in the units of the operators.
pub proof fn ladders_have_the_commutators_of_spin(
    basis: &SpinBasis1D,
    state: u128,
    position: nat,
    site: usize,
)
    requires
        basis.ready(),
        basis.valid_state(state),
        site < basis.spec_sites(),
    ensures
        ({
            let c = component_units(basis.spec_normalization());
            let l = ladder_units(basis.spec_normalization());
            let z = reading::element_of(basis, state, 'z', position, site, state, 1);
            let down_up = reading::round_trip(basis, state, '-', '+', position, site);
            let up_down = reading::round_trip(basis, state, '+', '-', position, site);
            &&& down_up is Some
            &&& up_down is Some
            &&& down_up->0.less(up_down->0).scaled(l * l) == z.scaled(4 * c)
            &&& basis.moves(state, '+', position, site)->Ok_0.len() == 1 ==> {
                let above = basis.moves(state, '+', position, site)->Ok_0[0].0;
                reading::element_of(basis, above, 'z', position, site, above, 1).less(z)
                    == reading::whole(2 * c)
            }
            &&& forall|other: u128, radicand: u128|
                other != state || radicand != 1 ==> #[trigger] reading::element_of(
                    basis,
                    state,
                    'z',
                    position,
                    site,
                    other,
                    radicand,
                ) == reading::whole(0)
            &&& basis.moves(state, 'I', position, site) matches Ok(list) && list == seq![
                (state, None::<LocalFactor>),
            ]
        }),
{
    lemma_levels(basis, state, site);
    let b = basis.base();
    let t = (b - 1) as int;
    let p = radix::place(b, site as nat);
    let d = radix::digit(state as nat, b, site as nat) as int;
    let z = basis.moves(state, 'z', position, site)->Ok_0;
    reading::lemma_element_one(z, state, 1);
    if d + 1 < b {
        let above = (state + p) as u128;
        lemma_levels(basis, above, site);
        reading::lemma_element_one(basis.moves(above, 'z', position, site)->Ok_0, above, 1);
        assert(spin::lowering_radicand(t as nat, (d + 1) as nat) == (d + 1) * (t - d));
    }
    if d > 0 {
        let below = (state - p) as u128;
        lemma_levels(basis, below, site);
        assert(spin::raising_radicand(t as nat, (d - 1) as nat) == d * (t - d + 1));
    }
    assert((d + 1) * (t - d) == d * (t - d) + (t - d)) by (nonlinear_arith);
    assert(d * (t - d + 1) == d * (t - d) + d) by (nonlinear_arith);
    reading::lemma_squares(spin::raising_radicand(t as nat, d as nat));
    reading::lemma_squares(spin::lowering_radicand(t as nat, d as nat));
    let down_up = reading::round_trip(basis, state, '-', '+', position, site)->0;
    let up_down = reading::round_trip(basis, state, '+', '-', position, site)->0;
    reading::lemma_multiples(down_up.less(up_down));
    reading::lemma_multiples(reading::element(z, state, 1));
    if d == 0 {
        assert(spin::lowering_radicand(t as nat, d as nat) == 0) by {
            lemma_mul_basics(t - d + 1);
        }
    }
    if d == t {
        assert(spin::raising_radicand(t as nat, d as nat) == 0) by {
            lemma_mul_basics(d + 1);
        }
    }
    let square = if basis.spec_normalization() == SpinNormalization::Pauli {
        16int
    } else {
        4int
    };
    assert(down_up == reading::whole(square * spin::lowering_radicand(t as nat, d as nat)));
    assert(up_down == reading::whole(square * spin::raising_radicand(t as nat, d as nat)));
    assert forall|other: u128, radicand: u128| other != state || radicand != 1 implies
        #[trigger] reading::element_of(basis, state, 'z', position, site, other, radicand)
        == reading::whole(0) by {
        reading::lemma_element_one(z, other, radicand);
    }
}

} // verus!
