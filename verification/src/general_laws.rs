//! How the images of a state in a symmetry sector turn when a map is applied, for exact numbers.

use vstd::prelude::*;
use crate::composition;
use crate::drive_laws;
use crate::exactness;
use crate::general::{SymmetryGenerator, SymmetryMap, Visits};
use crate::general;
use crate::grids;
use crate::scalar::{Amplitude, Scalar};
use crate::weights::Weighted;

verus! {

pub open spec fn root_adds<V: Amplitude>(first: nat, second: nat, period: nat) -> bool {
    V::root_value(first + second, period) == V::root_value(first, period).product(
        V::root_value(second, period),
    )
}

/// The powers of a root of one multiply, and return to one after a period.
pub open spec fn roots_turn<V: Amplitude>(period: nat) -> bool {
    &&& forall|a: nat, b: nat| #[trigger] root_adds::<V>(a, b, period)
    &&& forall|a: nat| #[trigger] V::root_value(a * period, period) == V::one_value()
    &&& V::root_value(0, period) == V::one_value()
}

/// Where a number of steps leads, and with which phase.
pub open spec fn walked<S, V: Amplitude, M: SymmetryMap<S, V>>(
    map: &M,
    state: S,
    phase: V,
    steps: nat,
) -> (S, V)
    decreases steps,
{
    if steps == 0 {
        (state, phase)
    } else {
        let (next, turn) = map.image(state)->0;
        walked(map, next, phase.product(turn), (steps - 1) as nat)
    }
}

proof fn lemma_walked_scaled<S, V: Amplitude, M: SymmetryMap<S, V>>(
    map: &M,
    state: S,
    factor: V,
    phase: V,
    steps: nat,
)
    requires
        exactness::exact::<V>(),
    ensures
        walked(map, state, factor.product(phase), steps).0 == walked(map, state, phase, steps).0,
        walked(map, state, factor.product(phase), steps).1 == factor.product(
            walked(map, state, phase, steps).1,
        ),
    decreases steps,
{
    if steps > 0 {
        let (next, turn) = map.image(state)->0;
        lemma_walked_scaled(map, next, factor, phase.product(turn), (steps - 1) as nat);
        assert(exactness::factors_regroup(factor, phase, turn));
    }
}

/// The amplitude of the image after a number of steps.
pub open spec fn turned<V: Amplitude>(
    amplitude: V,
    phase: V,
    index: nat,
    power: nat,
    period: nat,
) -> V {
    amplitude.product(phase).product(V::root_value(index * power, period))
}

/// The images under the powers of the last map are those that the map reaches step by step, each
/// with the phases on the way and the power of the character.
pub proof fn powers_follow_the_map<S, V: Amplitude, M: SymmetryMap<S, V>>(
    list: Seq<SymmetryGenerator<M>>,
    at: nat,
    start: S,
    image: S,
    phase: V,
    amplitude: V,
    left: nat,
    found: Seq<Weighted<S, V>>,
)
    requires
        at + 1 == list.len(),
        left <= list[at as int].map.order(),
        general::powers(list, at, start, image, phase, amplitude, left) == Visits::<S, V>::Ok(
            found,
        ),
    ensures
        found.len() == left,
        walked(&list[at as int].map, image, phase, left).0 == start,
        walked(&list[at as int].map, image, phase, left).1.unity(),
        forall|i: int|
            0 <= i < left ==> (#[trigger] found[i]).state == walked(
                &list[at as int].map,
                image,
                phase,
                i as nat,
            ).0 && found[i].amplitude == turned(
                amplitude,
                walked(&list[at as int].map, image, phase, i as nat).1,
                general::sector_index(list[at as int].sector, list[at as int].map.order()),
                (list[at as int].map.order() - left + i) as nat,
                list[at as int].map.order() as nat,
            ),
    decreases left,
{
    let generator = list[at as int];
    let map = &generator.map;
    let period = map.order();
    if left > 0 {
        let power = (period - left) as nat;
        let index = general::sector_index(generator.sector, period);
        let head = Weighted {
            state: image,
            amplitude: amplitude.product(phase).product(
                V::root_value(index * power, period as nat),
            ),
        };
        assert(general::visits(list, at + 1, image, head.amplitude) == Visits::<S, V>::Ok(
            seq![head],
        ));
        assert(map.image(image) is Some);
        let (next, turn) = map.image(image)->0;
        let tail = general::powers(
            list,
            at,
            start,
            next,
            phase.product(turn),
            amplitude,
            (left - 1) as nat,
        );
        assert(tail is Ok);
        let rest = tail->Ok_0;
        assert(found == seq![head] + rest);
        powers_follow_the_map(
            list,
            at,
            start,
            next,
            phase.product(turn),
            amplitude,
            (left - 1) as nat,
            rest,
        );
        assert forall|i: int| 0 <= i < left implies (#[trigger] found[i]).state == walked(
            map,
            image,
            phase,
            i as nat,
        ).0 && found[i].amplitude == turned(
            amplitude,
            walked(map, image, phase, i as nat).1,
            index,
            (period - left + i) as nat,
            period as nat,
        ) by {
            if i > 0 {
                assert(found[i] == rest[i - 1]);
                assert((period - (left - 1) + (i - 1)) as nat == (period - left + i) as nat);
                assert(walked(map, image, phase, i as nat) == walked(
                    map,
                    next,
                    phase.product(turn),
                    (i - 1) as nat,
                ));
            }
        }
    }
}

/// What an image contributes to the amplitude of a state.
pub open spec fn contribution<S, V: Scalar>(list: Seq<Weighted<S, V>>, state: S, i: int) -> V {
    if list[i].state == state {
        list[i].amplitude
    } else {
        V::zero_value()
    }
}

/// The amplitude of a state is the sum of what all images contribute to it.
pub proof fn amplitudes_sum_over_images<S, V: Scalar>(list: Seq<Weighted<S, V>>, state: S)
    requires
        exactness::exact::<V>(),
    ensures
        general::amplitude_of(list, state) == exactness::total(
            |i: int| contribution(list, state, i),
            list.len(),
        ),
    decreases list.len(),
{
    if list.len() > 0 {
        let front = list.drop_last();
        amplitudes_sum_over_images(front, state);
        let part = |i: int| contribution(front, state, i);
        let whole = |i: int| contribution(list, state, i);
        assert forall|i: int| 0 <= i < front.len() implies #[trigger] part(i) == whole(i) by {}
        exactness::lemma_total_same(part, whole, front.len());
        let sum = general::amplitude_of(front, state);
        assert(exactness::commutes(sum, V::zero_value()));
        assert(V::zero_value().sum(sum) == sum);
    }
}

/// The images of a state in a sector are those of the state that a map makes of it, times the
/// phase of the map and the character of the sector.
pub proof fn sectors_turn_by_their_character<S, V: Amplitude, M: SymmetryMap<S, V>>(
    list: Seq<SymmetryGenerator<M>>,
    at: nat,
    state: S,
    amplitude: V,
    from: Seq<Weighted<S, V>>,
    onto: Seq<Weighted<S, V>>,
    target: S,
)
    requires
        grids::faithful::<V>(),
        forall|a: V| #[trigger] a.unity() ==> a == V::one_value(),
        at + 1 == list.len(),
        roots_turn::<V>(list[at as int].map.order() as nat),
        list[at as int].map.image(state) is Some,
        general::visits(list, at, state, amplitude) == Visits::<S, V>::Ok(from),
        general::visits(list, at, (list[at as int].map.image(state)->0).0, amplitude)
            == Visits::<S, V>::Ok(onto),
    ensures
        ({
            let period = list[at as int].map.order();
            let index = general::sector_index(list[at as int].sector, period);
            general::amplitude_of(from, target) == general::amplitude_of(onto, target).product(
                (list[at as int].map.image(state)->0).1.product(
                    V::root_value(index, period as nat),
                ),
            )
        }),
{
    let map = &list[at as int].map;
    let period = map.order() as nat;
    let index = general::sector_index(list[at as int].sector, map.order());
    let (next, turn) = map.image(state)->0;
    let one = V::one_value();
    let root = V::root_value(index, period);
    let factor = turn.product(root);
    assert(period > 0);
    powers_follow_the_map(list, at, state, state, one, amplitude, period, from);
    powers_follow_the_map(list, at, next, next, one, amplitude, period, onto);
    amplitudes_sum_over_images(from, target);
    amplitudes_sum_over_images(onto, target);
    let g = |i: int| contribution(from, target, i);
    let h = |i: int| contribution(onto, target, i);
    let scaled = |i: int| h(i).product(factor);
    composition::lemma_scaled(h, factor, period);
    let rest = |i: int| g(i + 1);
    let shorter = (period - 1) as nat;
    drive_laws::lemma_first_apart(g, rest, shorter);
    assert forall|i: int| 0 <= i < shorter implies #[trigger] scaled(i) == rest(i) by {
        lemma_step(map, state, amplitude, index, period, i as nat);
        assert(from[i + 1].state == onto[i].state);
        assert(from[i + 1].amplitude == onto[i].amplitude.product(factor));
        assert(V::zero_value().product(factor) == V::zero_value());
        assert(g(i + 1) == contribution(from, target, i + 1));
    }
    exactness::lemma_total_same(scaled, rest, shorter);
    lemma_step(map, state, amplitude, index, period, shorter);
    assert(scaled(period - 1) == g(0)) by {
        let last = onto[period - 1];
        assert(last.state == state);
        let whole = walked(map, state, one, period);
        assert(whole.1 == one);
        assert(last.amplitude.product(factor) == turned(
            amplitude,
            one,
            index,
            period,
            period,
        ));
        assert(V::root_value(index * period, period) == one);
        assert(index * 0 == 0);
        assert(from[0].amplitude == turned(amplitude, one, index, 0, period));
        assert(from[0].amplitude == last.amplitude.product(factor));
        assert(V::zero_value().product(factor) == V::zero_value());
    }
    assert(exactness::commutes(g(0), exactness::total(rest, shorter)));
}

/// A step more from a state is as many steps from the next one, times the phase and the
/// character.
proof fn lemma_step<S, V: Amplitude, M: SymmetryMap<S, V>>(
    map: &M,
    state: S,
    amplitude: V,
    index: nat,
    period: nat,
    steps: nat,
)
    requires
        grids::faithful::<V>(),
        roots_turn::<V>(period),
    ensures
        ({
            let (next, turn) = map.image(state)->0;
            let further = walked(map, state, V::one_value(), steps + 1);
            let there = walked(map, next, V::one_value(), steps);
            &&& further.0 == there.0
            &&& turned(amplitude, further.1, index, steps + 1, period) == turned(
                amplitude,
                there.1,
                index,
                steps,
                period,
            ).product(turn.product(V::root_value(index, period)))
        }),
{
    let one = V::one_value();
    let (next, turn) = map.image(state)->0;
    let there = walked(map, next, one, steps);
    assert(one.product(turn) == turn);
    assert(exactness::factors_commute(turn, one));
    lemma_walked_scaled(map, next, turn, one, steps);
    assert(index * (steps + 1) == index * steps + index) by (nonlinear_arith);
    assert(root_adds::<V>(index * steps, index, period));
    let a = amplitude;
    let p = there.1;
    let r = V::root_value(index * steps, period);
    let c = V::root_value(index, period);
    lemma_four(a, turn, p, r, c);
}

proof fn lemma_four<V: Scalar>(a: V, turn: V, p: V, r: V, c: V)
    requires
        exactness::exact::<V>(),
    ensures
        a.product(turn.product(p)).product(r.product(c)) == a.product(p).product(r).product(
            turn.product(c),
        ),
{
    let ap = a.product(p);
    assert(exactness::factors_commute(turn, p));
    assert(exactness::factors_regroup(a, p, turn));
    assert(a.product(turn.product(p)) == ap.product(turn));
    assert(exactness::factors_regroup(ap.product(turn), r, c));
    assert(exactness::factors_regroup(ap, turn, r));
    assert(exactness::factors_commute(turn, r));
    assert(exactness::factors_regroup(ap, r, turn));
    assert(exactness::factors_regroup(ap.product(r), turn, c));
}

} // verus!
