//! The algebra of the spin operators on wide states.

use vstd::prelude::*;
use crate::local::{LocalAlgebra, LocalFactor};
use crate::reading;
use crate::wide::WideState;
use crate::wide;
use crate::wide_spin::WideSpinBasis;
use crate::wide_spin;

verus! {

/// The states have the same bits but for one, which is inverted.
pub open spec fn differ_in<const WORDS: usize>(
    state: WideState<WORDS>,
    other: WideState<WORDS>,
    site: nat,
) -> bool {
    &&& other.bit_at(site) != state.bit_at(site)
    &&& forall|i: nat|
        i < 64 * WORDS && i != site ==> #[trigger] other.bit_at(i) == state.bit_at(i)
}

proof fn lemma_flip<const WORDS: usize>(state: WideState<WORDS>, site: nat)
    requires
        site < 64 * WORDS,
    ensures
        ({
            let flipped = wide_spin::replaced(state, site, !state.bit_at(site));
            &&& differ_in(state, flipped, site)
            &&& wide_spin::replaced(flipped, site, state.bit_at(site)) == state
        }),
{
    let up = state.bit_at(site);
    let witness = wide::with_bit_inverted(state, site);
    wide::lemma_bit_inverted(state, site);
    assert(wide_spin::bit_replaced(state, witness, site, !up));
    let flipped = wide_spin::replaced(state, site, !up);
    assert(wide_spin::bit_replaced(state, flipped, site, !up));
    assert(flipped.bit_at(site) == !up);
    assert forall|i: nat| i < 64 * WORDS && i != site implies #[trigger] flipped.bit_at(i)
        == state.bit_at(i) by {}
    assert(wide_spin::bit_replaced(flipped, state, site, up)) by {
        assert forall|i: nat| i < 64 * WORDS implies #[trigger] state.bit_at(i) == (if i == site {
            up
        } else {
            flipped.bit_at(i)
        }) by {}
    }
    let back = wide_spin::replaced(flipped, site, up);
    assert(wide_spin::bit_replaced(flipped, back, site, up));
    assert forall|i: nat| i < 64 * WORDS implies #[trigger] back.bit_at(i) == state.bit_at(
        i,
    ) by {
        assert(back.bit_at(i) == (if i == site {
            up
        } else {
            flipped.bit_at(i)
        }));
    }
    back.bits_determine(state);
}

/// The raising operator sets the bit of a site where it is not set, the lowering operator
/// clears it where it is set, both with the factor one, and no other bit changes. Lowering and
/// raising again is what the number operator does, and the commutator of both is the `z`
/// component, in units of Pauli matrices or twice, in units of angular momentum.
pub proof fn wide_ladders_have_their_algebra<const WORDS: usize>(
    basis: &WideSpinBasis<WORDS>,
    state: WideState<WORDS>,
    position: nat,
    site: usize,
)
    requires
        basis.ready(),
        site < basis.spec_sites(),
    ensures
        ({
            let up = state.bit_at(site as nat);
            let raise = basis.moves(state, '+', position, site);
            let lower = basis.moves(state, '-', position, site);
            let down_up = reading::round_trip(basis, state, '-', '+', position, site);
            let up_down = reading::round_trip(basis, state, '+', '-', position, site);
            let z = reading::element_of(basis, state, 'z', position, site, state, 1);
            let n = reading::element_of(basis, state, 'n', position, site, state, 1);
            &&& raise is Ok
            &&& lower is Ok
            &&& up ==> raise->Ok_0.len() == 0 && lower->Ok_0.len() == 1 && differ_in(
                state,
                lower->Ok_0[0].0,
                site as nat,
            )
            &&& !up ==> lower->Ok_0.len() == 0 && raise->Ok_0.len() == 1 && differ_in(
                state,
                raise->Ok_0[0].0,
                site as nat,
            )
            &&& down_up is Some
            &&& up_down is Some
            &&& reading::acts(basis, state, 'z', position, site)
            &&& reading::acts(basis, state, 'n', position, site)
            &&& down_up->0 == n.plus(n)
            &&& down_up->0.plus(up_down->0) == reading::whole(4)
            &&& down_up->0.less(up_down->0) == (if basis.spec_pauli() {
                z.plus(z)
            } else {
                z.plus(z).plus(z.plus(z))
            })
            &&& up <==> n == reading::whole(2)
            &&& basis.moves(state, 'I', position, site) matches Ok(list) && list == seq![
                (state, None::<LocalFactor>),
            ]
        }),
{
    lemma_flip(state, site as nat);
    let flipped = wide_spin::replaced(state, site as nat, !state.bit_at(site as nat));
    lemma_flip(flipped, site as nat);
    reading::lemma_squares(1);
    reading::lemma_element_one(basis.moves(state, 'z', position, site)->Ok_0, state, 1);
    reading::lemma_element_one(basis.moves(state, 'n', position, site)->Ok_0, state, 1);
}

/// In every matrix element the `x` component plus `i` times the `y` component is the raising
/// operator, and the `x` component minus `i` times the `y` component is the lowering operator;
/// for Pauli matrices they are twice these. The lowering operator is the adjoint of the raising
/// operator, and the other operators lead nowhere else.
pub proof fn wide_ladders_combine_components<const WORDS: usize>(
    basis: &WideSpinBasis<WORDS>,
    state: WideState<WORDS>,
    position: nat,
    site: usize,
    target: WideState<WORDS>,
    radicand: u128,
)
    requires
        basis.ready(),
        site < basis.spec_sites(),
    ensures
        ({
            let x = reading::element_of(basis, state, 'x', position, site, target, radicand);
            let y = reading::element_of(basis, state, 'y', position, site, target, radicand);
            let up = reading::element_of(basis, state, '+', position, site, target, radicand);
            let down = reading::element_of(basis, state, '-', position, site, target, radicand);
            let back = reading::element_of(basis, target, '-', position, site, state, radicand);
            let z = reading::element_of(basis, state, 'z', position, site, target, radicand);
            let n = reading::element_of(basis, state, 'n', position, site, target, radicand);
            &&& reading::acts(basis, state, 'x', position, site)
            &&& reading::acts(basis, state, 'y', position, site)
            &&& x.plus(y.turned()) == (if basis.spec_pauli() {
                up.plus(up)
            } else {
                up
            })
            &&& x.less(y.turned()) == (if basis.spec_pauli() {
                down.plus(down)
            } else {
                down
            })
            &&& up == back.conjugate()
            &&& target != state ==> z == reading::whole(0) && n == reading::whole(0)
        }),
{
    lemma_flip(state, site as nat);
    lemma_flip(target, site as nat);
    reading::lemma_element_one(basis.moves(state, 'x', position, site)->Ok_0, target, radicand);
    reading::lemma_element_one(basis.moves(state, 'y', position, site)->Ok_0, target, radicand);
    reading::lemma_element_one(basis.moves(state, '+', position, site)->Ok_0, target, radicand);
    reading::lemma_element_one(basis.moves(state, '-', position, site)->Ok_0, target, radicand);
    reading::lemma_element_one(basis.moves(target, '-', position, site)->Ok_0, state, radicand);
    reading::lemma_element_one(basis.moves(state, 'z', position, site)->Ok_0, target, radicand);
    reading::lemma_element_one(basis.moves(state, 'n', position, site)->Ok_0, target, radicand);
}

} // verus!
