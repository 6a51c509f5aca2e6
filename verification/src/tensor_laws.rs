//! Products of bases: operators on both factors, and vectors in blocks.

use vstd::prelude::*;
use crate::basis::Basis;
use crate::block_ops::BlockOps;
use crate::block_ops;
use crate::composition;
use crate::exactness;
use crate::general::{SymmetryGenerator, SymmetryMap};
use crate::general;
use crate::grids;
use crate::linear::LinearOperator;
use crate::local::Factor;
use crate::product_laws;
use crate::reduction_laws;
use crate::scalar::{Amplitude, Scalar};
use crate::sector_shift::BraKetTransition;
use crate::sector_shift;
use crate::tensor::{TensorBasis, TensorState};
use crate::tensor;
use crate::weights;

verus! {

/// The matrix element of an operator on both factors is the product of the matrix elements on
/// the two.
pub proof fn factors_multiply<A, B, V: Amplitude>(
    left: Seq<(A, Seq<Factor>)>,
    right: Seq<(B, Seq<Factor>)>,
    first: A,
    second: B,
)
    requires
        grids::faithful::<V>(),
    ensures
        product_laws::element::<TensorState<A, B>, V>(
            tensor::paired_outcomes(left, right),
            TensorState { left: first, right: second },
        ) == product_laws::element::<A, V>(left, first).product(
            product_laws::element::<B, V>(right, second),
        ),
{
    let m = left.len();
    let n = right.len();
    let target = TensorState { left: first, right: second };
    let list = tensor::paired_outcomes(left, right);
    let all = |i: int|
        if list[i].0 == target {
            weights::weight::<V>(list[i].1)
        } else {
            V::zero_value()
        };
    let a = |i: int|
        if left[i].0 == first {
            weights::weight::<V>(left[i].1)
        } else {
            V::zero_value()
        };
    let b = |i: int|
        if right[i].0 == second {
            weights::weight::<V>(right[i].1)
        } else {
            V::zero_value()
        };
    let z = V::zero_value();
    reduction_laws::lemma_by_rows(all, m, n);
    let lines = |r: int| exactness::total(|k: int| all(r * n + k), n);
    let other = exactness::total(b, n);
    composition::lemma_scaled(a, other, m);
    let scaled = |i: int| a(i).product(other);
    assert forall|r: int| 0 <= r < m implies #[trigger] lines(r) == scaled(r) by {
        composition::lemma_scaled(b, a(r), n);
        let inner = |k: int| b(k).product(a(r));
        let line = |k: int| all(r * n + k);
        assert forall|k: int| 0 <= k < n implies #[trigger] line(k) == inner(k) by {
            tensor::lemma_pair_position(r, k, m as int, n as int);
            product_laws::weights_multiply::<V>(left[r].1, right[k].1);
            let x = weights::weight::<V>(left[r].1);
            let y = weights::weight::<V>(right[k].1);
            assert(exactness::factors_commute(x, y));
            assert(exactness::factors_commute(x, z));
            assert(exactness::factors_commute(y, z));
            assert(z.product(x) == z);
            assert(z.product(y) == z);
            assert(z.product(z) == z);
        }
        exactness::lemma_total_same(line, inner, n);
        assert(exactness::factors_commute(other, a(r)));
    }
    exactness::lemma_total_same(lines, scaled, m);
    product_laws::lemma_element_terms::<TensorState<A, B>, V>(list, target, all);
}

/// An operator string in two parts acts on the first factor with the symbols before the
/// separator and on the second factor with those behind it.
pub proof fn parts_act_on_their_factors<L: Basis, R: Basis, V: Amplitude>(
    basis: &TensorBasis<L, R>,
    state: TensorState<L::State, R::State>,
    front: Seq<char>,
    back: Seq<char>,
    front_sites: Seq<usize>,
    back_sites: Seq<usize>,
    first: L::State,
    second: R::State,
)
    requires
        grids::faithful::<V>(),
        front.len() == front_sites.len(),
        front.len() <= usize::MAX,
        basis.action(
            state,
            front + back,
            Some(front.len() as usize),
            front_sites + back_sites,
        ) is Ok,
    ensures
        ({
            let whole = basis.action(
                state,
                front + back,
                Some(front.len() as usize),
                front_sites + back_sites,
            );
            let on_left = tensor::factor_action(
                &basis.spec_left(),
                state.left,
                front,
                front_sites,
            );
            let on_right = tensor::factor_action(
                &basis.spec_right(),
                state.right,
                back,
                back_sites,
            );
            &&& on_left is Ok
            &&& on_right is Ok
            &&& product_laws::element::<TensorState<L::State, R::State>, V>(
                whole->Ok_0,
                TensorState { left: first, right: second },
            ) == product_laws::element::<L::State, V>(on_left->Ok_0, first).product(
                product_laws::element::<R::State, V>(on_right->Ok_0, second),
            )
        }),
{
    let cut = front.len() as int;
    let symbols = front + back;
    let sites = front_sites + back_sites;
    assert(symbols.subrange(0, cut) =~= front);
    assert(symbols.subrange(cut, symbols.len() as int) =~= back);
    assert(sites.subrange(0, cut) =~= front_sites);
    assert(sites.subrange(cut, symbols.len() as int) =~= back_sites);
    let on_left = tensor::factor_action(&basis.spec_left(), state.left, front, front_sites);
    let on_right = tensor::factor_action(&basis.spec_right(), state.right, back, back_sites);
    factors_multiply::<L::State, R::State, V>(
        on_left->Ok_0,
        on_right->Ok_0,
        first,
        second,
    );
}

/// A part without symbols leaves its factor as it is.
pub proof fn empty_parts_keep_their_factor<B: Basis, V: Amplitude>(
    basis: &B,
    state: B::State,
    target: B::State,
)
    requires
        grids::faithful::<V>(),
    ensures
        tensor::factor_action(basis, state, Seq::empty(), Seq::empty()) is Ok,
        product_laws::element::<B::State, V>(
            tensor::factor_action(basis, state, Seq::empty(), Seq::empty())->Ok_0,
            target,
        ) == (if target == state {
            V::one_value()
        } else {
            V::zero_value()
        }),
{
    reveal_with_fuel(exactness::total, 2);
    let z = V::zero_value();
    assert(z.sum(V::one_value()) == V::one_value());
    assert(z.sum(z) == z);
}

/// The pair of two states stands in the list of all pairs behind all pairs with an earlier first
/// state, and among those with its own first state where the second state stands in its list.
pub proof fn pairs_stand_in_order<A, B>(left: Seq<A>, right: Seq<B>, i: int, j: int)
    requires
        0 <= i < left.len(),
        0 <= j < right.len(),
    ensures
        0 <= i * right.len() + j < tensor::all_pairs(left, right).len(),
        tensor::all_pairs(left, right)[i * right.len() + j] == (TensorState {
            left: left[i],
            right: right[j],
        }),
{
    tensor::lemma_pair_position(i, j, left.len() as int, right.len() as int);
}

/// The sum of the matrix elements of all transitions to a state.
pub open spec fn bra_total<S, V: Scalar>(
    list: Seq<BraKetTransition<S, V>>,
    bra: S,
) -> V {
    exactness::total(
        |i: int|
            if list[i].bra == bra {
                list[i].matrix_element
            } else {
                V::zero_value()
            },
        list.len(),
    )
}

/// All transitions lead away from the given state, and those that lead to one state add up to
/// the coefficient times the matrix element of the operator.
pub proof fn transitions_add_up<S, V: Amplitude>(
    list: Seq<(S, Seq<Factor>)>,
    ket: S,
    coefficient: V,
    bra: S,
)
    requires
        exactness::exact::<V>(),
    ensures
        forall|i: int|
            0 <= i < sector_shift::elements(list, ket, coefficient).len() ==> (
            #[trigger] sector_shift::elements(list, ket, coefficient)[i]).ket == ket,
        bra_total(sector_shift::elements(list, ket, coefficient), bra) == coefficient.product(
            product_laws::element::<S, V>(list, bra),
        ),
    decreases list.len(),
{
    let z = V::zero_value();
    let all = sector_shift::elements(list, ket, coefficient);
    if list.len() == 0 {
        assert(exactness::factors_commute(coefficient, z));
        assert(z.product(coefficient) == z);
    } else {
        let shorter = list.drop_last();
        transitions_add_up(shorter, ket, coefficient, bra);
        let front = sector_shift::elements(shorter, ket, coefficient);
        let (last_bra, factors) = list.last();
        let w = weights::weight::<V>(factors);
        let more = coefficient.product(w);
        let one = |i: int|
            if shorter[i].0 == bra {
                weights::weight::<V>(shorter[i].1)
            } else {
                V::zero_value()
            };
        let two = |i: int|
            if list[i].0 == bra {
                weights::weight::<V>(list[i].1)
            } else {
                V::zero_value()
            };
        exactness::lemma_total_same(one, two, shorter.len());
        let rest = exactness::total(one, shorter.len());
        let last = two(list.len() - 1);
        assert(exactness::factors_commute(coefficient, rest.sum(last)));
        assert(exactness::distributes(rest, last, coefficient));
        assert(exactness::factors_commute(rest, coefficient));
        assert(exactness::factors_commute(last, coefficient));
        assert(z.product(coefficient) == z);
        let before = bra_total(front, bra);
        assert(exactness::commutes(before, z));
        assert(z.sum(before) == before);
        if !more.tiny() {
            let three = |i: int|
                if front[i].bra == bra {
                    front[i].matrix_element
                } else {
                    V::zero_value()
                };
            let four = |i: int|
                if all[i].bra == bra {
                    all[i].matrix_element
                } else {
                    V::zero_value()
                };
            assert(all.drop_last() =~= front);
            assert forall|i: int| 0 <= i < front.len() implies #[trigger] three(i) == four(i) by {
                assert(all[i] == front[i]);
            }
            exactness::lemma_total_same(three, four, front.len());
            assert forall|i: int| 0 <= i < all.len() implies (#[trigger] all[i]).ket == ket by {
                if i < front.len() {
                    assert(all[i] == front[i]);
                }
            }
        }
    }
}

/// The length of a vector that is put together.
proof fn lemma_gathered_length<V>(
    pieces: spec_fn(int) -> Option<Seq<V>>,
    offsets: Seq<usize>,
    upto: nat,
)
    requires
        upto < offsets.len(),
        offsets[0] == 0,
        block_ops::gathered(pieces, upto) is Some,
        forall|k: int|
            0 <= k < upto ==> (#[trigger] pieces(k)) is Some ==> pieces(k)->0.len() == offsets[k
                + 1] - offsets[k],
    ensures
        block_ops::gathered(pieces, upto)->0.len() == offsets[upto as int],
    decreases upto,
{
    if upto > 0 {
        lemma_gathered_length(pieces, offsets, (upto - 1) as nat);
        assert(pieces(upto - 1) is Some);
    }
}

proof fn lemma_gathered_piece<V>(
    pieces: spec_fn(int) -> Option<Seq<V>>,
    offsets: Seq<usize>,
    at: int,
    upto: nat,
)
    requires
        0 <= at < upto,
        upto < offsets.len(),
        offsets[0] == 0,
        forall|i: int, j: int|
            0 <= i <= j < offsets.len() ==> #[trigger] offsets[i] <= #[trigger] offsets[j],
        block_ops::gathered(pieces, upto) is Some,
        forall|k: int|
            0 <= k < upto ==> (#[trigger] pieces(k)) is Some ==> pieces(k)->0.len() == offsets[k
                + 1] - offsets[k],
    ensures
        pieces(at) is Some,
        block_ops::gathered(pieces, upto)->0.subrange(
            offsets[at] as int,
            offsets[at + 1] as int,
        ) == pieces(at)->0,
    decreases upto,
{
    let shorter = (upto - 1) as nat;
    lemma_gathered_length(pieces, offsets, shorter);
    lemma_gathered_length(pieces, offsets, upto);
    let front = block_ops::gathered(pieces, shorter)->0;
    let whole = block_ops::gathered(pieces, upto)->0;
    if at == shorter {
        assert(whole.subrange(offsets[at] as int, offsets[at + 1] as int) =~= pieces(at)->0);
    } else {
        lemma_gathered_piece(pieces, offsets, at, shorter);
        assert(offsets[at + 1] <= offsets[shorter as int]);
        assert(offsets[at] <= offsets[at + 1]);
        assert(whole.subrange(offsets[at] as int, offsets[at + 1] as int) =~= front.subrange(
            offsets[at] as int,
            offsets[at + 1] as int,
        ));
    }
}

/// A direct sum of blocks maps every piece of a vector by its own block, and nothing else.
pub proof fn blocks_map_their_own_pieces<V: Scalar, O: LinearOperator<V>>(
    sum: &BlockOps<O>,
    input: Seq<V>,
    at: int,
)
    requires
        sum.wf::<V>(),
        0 <= at < sum.list().len(),
        LinearOperator::<V>::maps(sum, input) is Some,
        forall|k: int, piece: Seq<V>|
            #![trigger sum.list()[k].maps(piece)]
            0 <= k < sum.list().len() && sum.list()[k].maps(piece) is Some
                ==> sum.list()[k].maps(piece)->0.len() == sum.list()[k].extent().0,
    ensures
        ({
            let from = sum.offsets()[at] as int;
            let to = sum.offsets()[at + 1] as int;
            sum.list()[at].maps(input.subrange(from, to)) == Some(
                LinearOperator::<V>::maps(sum, input)->0.subrange(from, to),
            )
        }),
{
    let pieces = |k: int| sum.piece_image(input, false, k);
    assert forall|k: int|
        0 <= k < sum.list().len() && (#[trigger] pieces(k)) is Some implies pieces(k)->0.len()
        == sum.offsets()[k + 1] - sum.offsets()[k] by {
        let piece = block_ops::piece_of(sum.offsets(), input, k);
        assert(sum.list()[k].usable());
        assert(sum.list()[k].maps(piece)->0.len() == sum.list()[k].extent().0);
    }
    lemma_gathered_piece(pieces, sum.offsets(), at, sum.list().len());
}

/// The phase that a map has given to a state after a number of steps, and where it is.
pub open spec fn walked<S, V: Amplitude, M: SymmetryMap<S, V>>(
    map: M,
    state: S,
    phase: V,
    steps: nat,
) -> (S, V)
    decreases steps,
{
    if steps == 0 {
        (state, phase)
    } else {
        let (next, turn) = map.image(state)->0;
        walked(map, next, phase.product(turn), (steps - 1) as nat)
    }
}

proof fn lemma_powers<S, V: Amplitude, M: SymmetryMap<S, V>>(
    list: Seq<SymmetryGenerator<M>>,
    start: S,
    image: S,
    phase: V,
    amplitude: V,
    left: nat,
    j: int,
)
    requires
        list.len() == 1,
        left <= list[0].map.order(),
        general::powers(list, 0, start, image, phase, amplitude, left) is Ok,
        0 <= j < left,
    ensures
        ({
            let visits = general::powers(list, 0, start, image, phase, amplitude, left)->Ok_0;
            let period = list[0].map.order();
            let place = walked(list[0].map, image, phase, j as nat);
            &&& visits.len() == left
            &&& visits[j].state == place.0
            &&& visits[j].amplitude == amplitude.product(place.1).product(
                V::root_value(
                    general::sector_index(list[0].sector, period) * ((period - left + j) as nat),
                    period as nat,
                ),
            )
        }),
    decreases left,
{
    let period = list[0].map.order();
    let value = amplitude.product(phase).product(
        V::root_value(
            general::sector_index(list[0].sector, period) * ((period - left) as nat),
            period as nat,
        ),
    );
    let head = general::visits(list, 1, image, value);
    assert(head->Ok_0 =~= seq![weights::Weighted { state: image, amplitude: value }]);
    let (next, turn) = list[0].map.image(image)->0;
    let rest = (left - 1) as nat;
    let tail = general::powers(list, 0, start, next, phase.product(turn), amplitude, rest);
    let visits = general::powers(list, 0, start, image, phase, amplitude, left)->Ok_0;
    assert(visits =~= head->Ok_0 + tail->Ok_0);
    if rest == 0 {
        assert(tail->Ok_0.len() == 0);
    } else {
        lemma_powers(list, start, next, phase.product(turn), amplitude, rest, 0);
        if j > 0 {
            lemma_powers(list, start, next, phase.product(turn), amplitude, rest, j - 1);
            assert(visits[j] == tail->Ok_0[j - 1]);
        }
    }
}

/// The images of a state under the powers of one map are visited in order, as many as the period
/// says, each with the phases of the steps that lead to it and with the character of the sector
/// for this power.
pub proof fn powers_are_visited_in_order<S, V: Amplitude, M: SymmetryMap<S, V>>(
    list: Seq<SymmetryGenerator<M>>,
    state: S,
    amplitude: V,
    j: int,
)
    requires
        list.len() == 1,
        list[0].map.order() > 0,
        general::visits(list, 0, state, amplitude) is Ok,
        0 <= j < list[0].map.order(),
    ensures
        ({
            let visits = general::visits(list, 0, state, amplitude)->Ok_0;
            let period = list[0].map.order();
            let place = walked(list[0].map, state, V::one_value(), j as nat);
            &&& visits.len() == period
            &&& visits[j].state == place.0
            &&& visits[j].amplitude == amplitude.product(place.1).product(
                V::root_value(
                    ((list[0].sector as int % period as int) * j) as nat,
                    period as nat,
                ),
            )
        }),
{
    let period = list[0].map.order() as nat;
    lemma_powers(list, state, state, V::one_value(), amplitude, period, j);
}

} // verus!
