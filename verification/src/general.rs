//! Symmetry sectors under maps that are given at run time.

use vstd::prelude::*;
use crate::basis::{Basis, Landing};
use crate::error::{QmbedError, Result};
use crate::local::{Bits, Fault, ProductOutcome, Reduction, Transition};
use crate::order::StateOrder;
use crate::order;
use crate::scalar::{Amplitude, Scalar};
use crate::weights::Weighted;

verus! {

/// Why symmetry maps are refused; a map that refuses a state does so with one of the
/// errors it has for that.
pub ghost enum MapFault {
    Period,
    Refused(Set<QmbedError>),
    Incompatible,
}

/// The error that reports the fault; one that a map brings is handed on.
pub open spec fn blames(error: QmbedError, fault: MapFault) -> bool {
    match fault {
        MapFault::Period => error is InvalidSector,
        MapFault::Refused(errors) => errors.contains(error),
        MapFault::Incompatible => error is IncompatibleSymmetry,
    }
}

/// A map between states with a phase, that gives back every state after a number of
/// steps.
/// What an implementation leaves out of the specification is not specified.
pub trait SymmetryMap<S, V> {
    open spec fn order(&self) -> usize {
        arbitrary()
    }

    /// The image of a state and its phase, or nothing where the state is refused.
    open spec fn image(&self, state: S) -> Option<(S, V)> {
        arbitrary()
    }

    /// The errors with which a state is refused.
    open spec fn refusals(&self, state: S) -> Set<QmbedError> {
        arbitrary()
    }

    fn period(&self) -> (period: usize)
        ensures
            period == self.order(),
    ;

    fn apply(&self, state: S) -> (result: Result<(S, V)>)
        ensures
            match result {
                Ok(image) => self.image(state) == Some(image),
                Err(error) => self.image(state) is None && self.refusals(state).contains(error),
            },
    ;
}

/// A symmetry map with the sector that is selected for it.
#[derive(Clone, Debug)]
pub struct SymmetryGenerator<M> {
    pub map: M,
    pub sector: i32,
}

/// The selected sectors of several symmetry maps.
#[derive(Clone, Debug)]
pub struct SymmetrySector<M> {
    pub generators: Vec<SymmetryGenerator<M>>,
}

impl<M> SymmetrySector<M> {
    pub fn new() -> (sector: Self)
        ensures
            sector.generators@.len() == 0,
    {
        SymmetrySector { generators: Vec::new() }
    }

    /// Adds a map.
    pub fn with_map(self, map: M, sector: i32) -> (result: Self)
        ensures
            result.generators@ == self.generators@.push(SymmetryGenerator { map, sector }),
    {
        let mut result = self;
        result.generators.push(SymmetryGenerator { map, sector });
        result
    }

    /// The number of maps.
    pub fn generators(&self) -> (count: usize)
        ensures
            count == self.generators@.len(),
    {
        self.generators.len()
    }
}

/// States with amplitudes, or the first fault met.
pub type Visits<S, V> = std::result::Result<Seq<Weighted<S, V>>, MapFault>;

pub open spec fn followed<S, V>(first: Visits<S, V>, second: Visits<S, V>) -> Visits<S, V> {
    match first {
        Err(fault) => Err(fault),
        Ok(a) => match second {
            Err(fault) => Err(fault),
            Ok(b) => Ok(a + b),
        },
    }
}

/// The sector of a map, counted from zero to below the period.
pub open spec fn sector_index(sector: i32, period: usize) -> nat {
    (sector as int % period as int) as nat
}

/// The images of a state under all products of powers of the maps from place `at` on,
/// with the phases of the maps and the characters of the sectors.
pub open spec fn visits<S, V: Amplitude, M: SymmetryMap<S, V>>(
    list: Seq<SymmetryGenerator<M>>,
    at: nat,
    state: S,
    amplitude: V,
) -> Visits<S, V>
    decreases list.len() - at, usize::MAX + 1,
{
    if at >= list.len() {
        Ok(seq![Weighted { state, amplitude }])
    } else if list[at as int].map.order() == 0 {
        Err(MapFault::Period)
    } else {
        powers(
            list,
            at,
            state,
            state,
            V::one_value(),
            amplitude,
            list[at as int].map.order() as nat,
        )
    }
}

/// The images under the remaining powers of the map in place `at`; the last power has
/// to lead back to the start with a phase of one.
pub open spec fn powers<S, V: Amplitude, M: SymmetryMap<S, V>>(
    list: Seq<SymmetryGenerator<M>>,
    at: nat,
    start: S,
    image: S,
    phase: V,
    amplitude: V,
    left: nat,
) -> Visits<S, V>
    decreases list.len() - at, left,
    when at < list.len() && left <= list[at as int].map.order()
{
    let generator = list[at as int];
    let period = generator.map.order();
    if left == 0 {
        if image == start && phase.unity() {
            Ok(Seq::empty())
        } else {
            Err(MapFault::Incompatible)
        }
    } else {
        let power = (period - left) as nat;
        let head = visits(
            list,
            at + 1,
            image,
            amplitude.product(phase).product(
                V::root_value(sector_index(generator.sector, period) * power, period as nat),
            ),
        );
        let tail = match generator.map.image(image) {
            None => Err(MapFault::Refused(generator.map.refusals(image))),
            Some((next, turn)) => if !turn.proper() {
                Err(MapFault::Incompatible)
            } else {
                powers(
                    list,
                    at,
                    start,
                    next,
                    phase.product(turn),
                    amplitude,
                    (left - 1) as nat,
                )
            },
        };
        followed(head, tail)
    }
}

fn normalize_sector(sector: i32, period: usize) -> (index: usize)
    requires
        period > 0,
    ensures
        index == sector_index(sector, period),
        index < period,
{
    if sector >= 0 {
        let positive: u128 = sector as u128;
        let index: u128 = positive % (period as u128);
        index as usize
    } else {
        let negative: u128 = (-(sector as i128)) as u128;
        let rest: u128 = negative % (period as u128);
        proof {
            let s = sector as int;
            let p = period as int;
            let m = -s;
            vstd::arithmetic::div_mod::lemma_fundamental_div_mod(m, p);
            vstd::arithmetic::div_mod::lemma_mod_bound(m, p);
            let q = m / p;
            let r = m % p;
            if r == 0 {
                assert(s == (-q) * p + 0) by (nonlinear_arith)
                    requires
                        -s == p * q + 0,
                ;
                vstd::arithmetic::div_mod::lemma_fundamental_div_mod_converse(s, p, -q, 0);
            } else {
                assert(s == (-q - 1) * p + (p - r)) by (nonlinear_arith)
                    requires
                        -s == p * q + r,
                ;
                vstd::arithmetic::div_mod::lemma_fundamental_div_mod_converse(
                    s,
                    p,
                    -q - 1,
                    p - r,
                );
            }
        }
        if rest == 0 {
            0
        } else {
            period - rest as usize
        }
    }
}

/// Walks through the images of a state.
fn visit<S: StateOrder, V: Amplitude, M: SymmetryMap<S, V>>(
    list: &Vec<SymmetryGenerator<M>>,
    at: usize,
    state: S,
    amplitude: V,
    output: &mut Vec<Weighted<S, V>>,
) -> (result: Result<()>)
    requires
        at <= list@.len(),
    ensures
        match result {
            Ok(()) => {
                let found = visits(list@, at as nat, state, amplitude);
                found is Ok && final(output)@ == old(output)@ + found->Ok_0
            },
            Err(error) => {
                let found = visits(list@, at as nat, state, amplitude);
                found is Err && blames(error, found->Err_0)
            },
        },
    decreases list@.len() - at,
{
    let length: usize = list.len();
    if at == length {
        let one: Weighted<S, V> = Weighted { state, amplitude };
        output.push(one);
        assert(output@ =~= old(output)@ + seq![one]);
        return Ok(());
    }
    let period: usize = list[at].map.period();
    if period == 0 {
        return Err(
            QmbedError::InvalidSector("a symmetry-map period must be positive".to_string()),
        );
    }
    let sector: usize = normalize_sector(list[at].sector, period);
    let mut image: S = state;
    let mut phase: V = V::one();
    let mut power: usize = 0;
    let ghost start = output@;
    let ghost goal = visits(list@, at as nat, state, amplitude);
    proof {
        assert(seq![Weighted { state, amplitude }].subrange(0, 0) =~= Seq::empty());
        lemma_followed_empty(
            powers(
                list@,
                at as nat,
                state,
                image,
                phase,
                amplitude,
                (period - power) as nat,
            ),
        );
        assert(output@.subrange(start.len() as int, output@.len() as int) =~= Seq::empty());
    }
    while power < period
        invariant
            at < length,
            length == list@.len(),
            power <= period,
            period == list@[at as int].map.order(),
            sector == sector_index(list@[at as int].sector, period),
            sector < period,
            goal == visits(list@, at as nat, state, amplitude),
            output@.len() >= start.len(),
            output@.subrange(0, start.len() as int) == start,
            followed(
                Visits::<S, V>::Ok(output@.subrange(start.len() as int, output@.len() as int)),
                powers(
                    list@,
                    at as nat,
                    state,
                    image,
                    phase,
                    amplitude,
                    (period - power) as nat,
                ),
            ) == goal,
        decreases period - power,
    {
        let ghost before = output@;
        let ghost done = before.subrange(start.len() as int, before.len() as int);
        let weight: V = amplitude.times(phase).times(V::root(sector, power, period));
        let ghost head = visits(list@, (at + 1) as nat, image, weight);
        let ghost tail = match list@[at as int].map.image(image) {
            None => Visits::<S, V>::Err(
                MapFault::Refused(list@[at as int].map.refusals(image)),
            ),
            Some((next, turn)) => if !turn.proper() {
                Visits::<S, V>::Err(MapFault::Incompatible)
            } else {
                powers(
                    list@,
                    at as nat,
                    state,
                    next,
                    phase.product(turn),
                    amplitude,
                    (period - power - 1) as nat,
                )
            },
        };
        assert(powers(
            list@,
            at as nat,
            state,
            image,
            phase,
            amplitude,
            (period - power) as nat,
        ) == followed(head, tail));
        match visit(list, at + 1, image, weight, output) {
            Ok(()) => {},
            Err(error) => {
                return Err(error);
            },
        }
        let ghost more = head->Ok_0;
        let (next, turn): (S, V) = match list[at].map.apply(image) {
            Ok(pair) => pair,
            Err(error) => {
                return Err(error);
            },
        };
        if !turn.is_finite() {
            return Err(
                QmbedError::IncompatibleSymmetry(
                    "a symmetry map returned a non-finite phase".to_string(),
                ),
            );
        }
        image = next;
        phase = phase.times(turn);
        power = power + 1;
        proof {
            assert(output@ =~= before + more);
            assert(output@.subrange(0, start.len() as int) =~= before.subrange(
                0,
                start.len() as int,
            ));
            assert(output@.subrange(start.len() as int, output@.len() as int) =~= done + more);
            if let Ok(rest) = tail {
                assert((done + more) + rest =~= done + (more + rest));
            }
        }
    }
    if !order::same_state(image, state) || !phase.is_unity() {
        return Err(
            QmbedError::IncompatibleSymmetry(
                "a symmetry map does not close at its declared period".to_string(),
            ),
        );
    }
    proof {
        let done = output@.subrange(start.len() as int, output@.len() as int);
        assert(done + Seq::<Weighted<S, V>>::empty() =~= done);
        assert(output@ =~= start + done);
    }
    Ok(())
}

proof fn lemma_followed_empty<S, V>(rest: Visits<S, V>)
    ensures
        followed(Visits::<S, V>::Ok(Seq::empty()), rest) == rest,
{
    if let Ok(list) = rest {
        assert(Seq::<Weighted<S, V>>::empty() + list =~= list);
    }
}

/// The states of a list, each where it first occurs.
pub open spec fn first_seen<S, V>(list: Seq<Weighted<S, V>>) -> Seq<S>
    decreases list.len(),
{
    if list.len() == 0 {
        Seq::empty()
    } else {
        let front = first_seen(list.drop_last());
        if front.contains(list.last().state) {
            front
        } else {
            front.push(list.last().state)
        }
    }
}

/// The sum of the amplitudes of a state.
pub open spec fn amplitude_of<S, V: Scalar>(list: Seq<Weighted<S, V>>, state: S) -> V
    decreases list.len(),
{
    if list.len() == 0 {
        V::zero_value()
    } else {
        let sum = amplitude_of(list.drop_last(), state);
        if list.last().state == state {
            sum.sum(list.last().amplitude)
        } else {
            sum
        }
    }
}

/// Every state once, with its summed amplitude.
pub open spec fn coefficients<S, V: Scalar>(list: Seq<Weighted<S, V>>) -> Seq<Weighted<S, V>> {
    Seq::new(
        first_seen(list).len(),
        |i: int|
            Weighted {
                state: first_seen(list)[i],
                amplitude: amplitude_of(list, first_seen(list)[i]),
            },
    )
}

proof fn lemma_first_seen<S, V>(list: Seq<Weighted<S, V>>)
    ensures
        first_seen(list).no_duplicates(),
        first_seen(list).len() <= list.len(),
        list.len() > 0 ==> first_seen(list).len() > 0,
    decreases list.len(),
{
    if list.len() > 0 {
        lemma_first_seen(list.drop_last());
    }
}

proof fn lemma_unseen<S, V: Scalar>(list: Seq<Weighted<S, V>>, state: S)
    requires
        !first_seen(list).contains(state),
    ensures
        amplitude_of(list, state) == V::zero_value(),
    decreases list.len(),
{
    if list.len() > 0 {
        let front = first_seen(list.drop_last());
        let last = list.last().state;
        if front.contains(last) {
            assert(last != state);
        } else {
            assert(front.push(last)[front.len() as int] == last);
        }
        assert(!front.contains(state)) by {
            if front.contains(state) && !front.contains(last) {
                let i = front.index_of(state);
                assert(front.push(last)[i] == state);
            }
        }
        lemma_unseen(list.drop_last(), state);
    }
}

/// Adds up amplitudes state by state.
pub(crate) fn gather<S: StateOrder, V: Scalar>(list: &Vec<Weighted<S, V>>) -> (result: Vec<Weighted<S, V>>)
    ensures
        result@ == coefficients(list@),
{
    let mut result: Vec<Weighted<S, V>> = Vec::new();
    let mut position: usize = 0;
    proof {
        assert(list@.subrange(0, 0) =~= Seq::empty());
        assert(result@ =~= coefficients(list@.subrange(0, 0)));
    }
    while position < list.len()
        invariant
            position <= list@.len(),
            result@ == coefficients(list@.subrange(0, position as int)),
        decreases list@.len() - position,
    {
        let item: Weighted<S, V> = list[position];
        let ghost shorter = list@.subrange(0, position as int);
        let ghost longer = list@.subrange(0, position + 1);
        let ghost seen = first_seen(shorter);
        assert(longer.drop_last() =~= shorter);
        assert(longer.last() == item);
        let mut index: usize = 0;
        while index < result.len() && !order::same_state(result[index].state, item.state)
            invariant
                index <= result@.len(),
                forall|i: int| 0 <= i < index ==> (#[trigger] result@[i]).state != item.state,
            decreases result@.len() - index,
        {
            index = index + 1;
        }
        proof {
            lemma_first_seen(shorter);
        }
        if index < result.len() {
            let sum: V = result[index].amplitude.plus(item.amplitude);
            let ghost before = result@;
            result.set(index, Weighted { state: item.state, amplitude: sum });
            proof {
                assert(seen[index as int] == item.state);
                assert(first_seen(longer) == seen);
                assert forall|i: int| 0 <= i < seen.len() implies result@[i] == coefficients(
                    longer,
                )[i] by {
                    assert(before[i] == coefficients(shorter)[i]);
                }
                assert(result@ =~= coefficients(longer));
            }
        } else {
            let sum: V = V::zero().plus(item.amplitude);
            let ghost before = result@;
            proof {
                assert(!seen.contains(item.state)) by {
                    if seen.contains(item.state) {
                        let i = seen.index_of(item.state);
                        assert(before[i].state == item.state);
                    }
                }
                lemma_unseen(shorter, item.state);
            }
            result.push(Weighted { state: item.state, amplitude: sum });
            proof {
                assert(first_seen(longer) == seen.push(item.state));
                assert forall|i: int| 0 <= i < seen.len() + 1 implies result@[i] == coefficients(
                    longer,
                )[i] by {
                    if i < seen.len() {
                        assert(before[i] == coefficients(shorter)[i]);
                        assert(seen[i] != item.state);
                    }
                }
                assert(result@ =~= coefficients(longer));
            }
        }
        position = position + 1;
    }
    assert(list@.subrange(0, position as int) =~= list@);
    result
}

/// The coefficients that do not vanish.
pub open spec fn surviving<S, V: Amplitude>(list: Seq<Weighted<S, V>>) -> Seq<Weighted<S, V>>
    decreases list.len(),
{
    if list.len() == 0 {
        Seq::empty()
    } else {
        let front = surviving(list.drop_last());
        if list.last().amplitude.vanishing() {
            front
        } else {
            front.push(list.last())
        }
    }
}

pub open spec fn states_of<S, V>(list: Seq<Weighted<S, V>>) -> Seq<S> {
    Seq::new(list.len(), |i: int| list[i].state)
}

pub open spec fn amplitudes_of<S, V>(list: Seq<Weighted<S, V>>) -> Seq<V> {
    Seq::new(list.len(), |i: int| list[i].amplitude)
}

/// The place of the least state.
pub open spec fn is_least<S: StateOrder>(list: Seq<S>, at: int) -> bool {
    0 <= at < list.len() && forall|i: int|
        0 <= i < list.len() && i != at ==> list[at].before(#[trigger] list[i])
}

/// The states of an orbit that survive in the sector, with their phases.
pub ghost struct Live<S, V> {
    pub members: Seq<S>,
    pub phases: Seq<V>,
    pub chosen: int,
}

/// All images of a state, and what survives of them.
pub ghost struct OrbitRecord<S, V> {
    pub all: Seq<S>,
    pub live: Option<Live<S, V>>,
}

pub type Orbits<S, V> = std::result::Result<Seq<OrbitRecord<S, V>>, MapFault>;

/// The orbit record belongs to the coefficients of the images.
pub open spec fn records<S: StateOrder, V: Amplitude>(
    list: Seq<Weighted<S, V>>,
    record: OrbitRecord<S, V>,
) -> bool {
    let live = surviving(list);
    &&& record.all == states_of(list)
    &&& match record.live {
        None => live.len() == 0,
        Some(found) => {
            &&& live.len() > 0
            &&& found.members == states_of(live)
            &&& is_least(found.members, found.chosen)
            &&& V::aligned(amplitudes_of(live), found.chosen) == Some(found.phases)
        },
    }
}

/// The coefficients of the images of a seed, or the fault in the maps.
pub open spec fn seed_images<S: StateOrder, V: Amplitude, M: SymmetryMap<S, V>>(
    list: Seq<SymmetryGenerator<M>>,
    seed: S,
) -> Visits<S, V> {
    match visits(list, 0, seed, V::one_value()) {
        Err(fault) => Err(fault),
        Ok(found) => Ok(coefficients(found)),
    }
}

/// The coefficients of an orbit can be normalized.
pub open spec fn one_dimensional<S: StateOrder, V: Amplitude>(list: Seq<Weighted<S, V>>) -> bool {
    let live = surviving(list);
    live.len() == 0 || exists|chosen: int| #[trigger]
        is_least(states_of(live), chosen) && V::aligned(amplitudes_of(live), chosen) is Some
}

/// The state belongs to one of the orbits.
pub open spec fn visited<S, V>(orbits: Seq<OrbitRecord<S, V>>, state: S) -> bool
    decreases orbits.len(),
{
    orbits.len() > 0 && (orbits.last().all.contains(state) || visited(orbits.drop_last(), state))
}

/// Where a state lies in its orbit.
#[derive(Clone, Copy, Debug)]
pub struct GeneralImage<S> {
    pub representative: S,
    pub phase: Bits,
    pub orbit_size: usize,
}

/// Where a state lies in the orbits that survive.
pub open spec fn image_in<S, V: Amplitude>(
    orbits: Seq<OrbitRecord<S, V>>,
    state: S,
) -> Option<GeneralImage<S>>
    decreases orbits.len(),
{
    if orbits.len() == 0 {
        None
    } else {
        match orbits.last().live {
            Some(live) => if live.members.contains(state) {
                Some(
                    GeneralImage {
                        representative: live.members[live.chosen],
                        phase: live.phases[live.members.index_of(state)].pattern(),
                        orbit_size: live.members.len() as usize,
                    },
                )
            } else {
                image_in(orbits.drop_last(), state)
            },
            None => image_in(orbits.drop_last(), state),
        }
    }
}

/// The least states of the orbits that survive, with the sizes of the orbits, in the order
/// in which the orbits are met.
pub open spec fn leads<S, V>(orbits: Seq<OrbitRecord<S, V>>) -> Seq<(S, nat)>
    decreases orbits.len(),
{
    if orbits.len() == 0 {
        Seq::empty()
    } else {
        let earlier = leads(orbits.drop_last());
        match orbits.last().live {
            Some(live) => earlier.push((live.members[live.chosen], live.members.len())),
            None => earlier,
        }
    }
}

/// States with the sizes of their orbits.
pub open spec fn sized<S>(states: Seq<S>, sizes: Seq<usize>) -> Seq<(S, nat)> {
    Seq::new(states.len(), |i: int| (states[i], sizes[i] as nat))
}

/// A state that no map moves.
pub open spec fn alone<S, V: Amplitude>(state: S) -> OrbitRecord<S, V> {
    OrbitRecord {
        all: seq![state],
        live: Some(Live { members: seq![state], phases: seq![V::one_value()], chosen: 0 }),
    }
}

/// The orbit of a seed is added to the earlier ones, unless it is among them. Without maps
/// every state is an orbit, as often as it is listed.
pub open spec fn extends<S: StateOrder, V: Amplitude, M: SymmetryMap<S, V>>(
    list: Seq<SymmetryGenerator<M>>,
    earlier: Seq<OrbitRecord<S, V>>,
    seed: S,
    orbits: Seq<OrbitRecord<S, V>>,
) -> bool {
    if list.len() > 0 && visited(earlier, seed) {
        orbits == earlier
    } else {
        &&& orbits.len() == earlier.len() + 1
        &&& orbits.drop_last() == earlier
        &&& if list.len() == 0 {
            orbits.last() == alone::<S, V>(seed)
        } else {
            &&& seed_images::<S, V, M>(list, seed) is Ok
            &&& records(seed_images::<S, V, M>(list, seed)->Ok_0, orbits.last())
        }
    }
}

/// The orbit of a seed cannot be added: the maps are refused, lead out of the parent
/// basis, or do not act by phases.
pub open spec fn obstructed<S: StateOrder, V: Amplitude, M: SymmetryMap<S, V>>(
    list: Seq<SymmetryGenerator<M>>,
    parent: Seq<S>,
    earlier: Seq<OrbitRecord<S, V>>,
    seed: S,
    fault: MapFault,
) -> bool {
    list.len() > 0 && !visited(earlier, seed) && match seed_images::<S, V, M>(list, seed) {
        Err(first) => fault == first,
        Ok(found) => fault == MapFault::Incompatible && !(one_dimensional(found) && forall|
            i: int,
        |
            0 <= i < found.len() ==> parent.contains((#[trigger] found[i]).state)),
    }
}

/// The orbits of the first states of a parent basis.
pub open spec fn sweeps<S: StateOrder, V: Amplitude, M: SymmetryMap<S, V>>(
    list: Seq<SymmetryGenerator<M>>,
    parent: Seq<S>,
    upto: nat,
    orbits: Seq<OrbitRecord<S, V>>,
) -> bool
    decreases upto,
{
    if upto == 0 {
        orbits.len() == 0
    } else {
        exists|earlier: Seq<OrbitRecord<S, V>>|
            sweeps(list, parent, (upto - 1) as nat, earlier) && #[trigger] extends(
                list,
                earlier,
                parent[upto - 1],
                orbits,
            )
    }
}

/// A symmetry sector of a parent basis.
#[derive(Debug)]
pub struct GeneralBasis<P: Basis> {
    parent: P,
    states: Vec<P::State>,
    orbit_sizes: Vec<usize>,
    images: Vec<Option<GeneralImage<P::State>>>,
}

impl<P: Basis> GeneralBasis<P> where P::State: StateOrder {
    pub closed spec fn base(&self) -> P {
        self.parent
    }

    pub closed spec fn representatives(&self) -> Seq<P::State> {
        self.states@
    }

    pub closed spec fn sizes(&self) -> Seq<usize> {
        self.orbit_sizes@
    }

    pub closed spec fn table(&self) -> Seq<Option<GeneralImage<P::State>>> {
        self.images@
    }

    pub open spec fn wf(&self) -> bool {
        &&& self.base().well_formed()
        &&& order::ascending(self.representatives())
        &&& self.representatives().len() <= usize::MAX
        &&& self.sizes().len() == self.representatives().len()
        &&& self.table().len() == self.base().listed().len()
        &&& forall|i: int|
            0 <= i < self.representatives().len() ==> self.base().accepts(
                #[trigger] self.representatives()[i],
            )
        &&& forall|i: int|
            0 <= i < self.table().len() ==> ((#[trigger] self.table()[i]) matches Some(image)
                ==> self.representatives().contains(image.representative))
    }

    /// Where a state lies in its orbit.
    pub open spec fn lookup(&self, state: P::State) -> Option<GeneralImage<P::State>> {
        if self.base().listed().contains(state) {
            self.table()[self.base().seat(state)]
        } else {
            None
        }
    }

    /// The basis holds one state for each surviving orbit, the least one, with the size of
    /// the orbit, and knows the place of every state of the parent in its orbit. Where orbits
    /// overlap, a state may stand for several, and a state of several belongs to the last.
    pub open spec fn describes<V: Amplitude>(&self, orbits: Seq<OrbitRecord<P::State, V>>) -> bool {
        &&& sized(self.representatives(), self.sizes()).to_multiset() == leads(
            orbits,
        ).to_multiset()
        &&& forall|state: P::State|
            self.base().listed().contains(state) ==> #[trigger] self.lookup(state) == image_in(
                orbits,
                state,
            )
    }
}

proof fn lemma_surviving<S, V: Amplitude>(list: Seq<Weighted<S, V>>)
    ensures
        surviving(list).len() <= list.len(),
        forall|i: int| 0 <= i < surviving(list).len() ==> list.contains(#[trigger] surviving(list)[i]),
        states_of(list).no_duplicates() ==> states_of(surviving(list)).no_duplicates(),
    decreases list.len(),
{
    if list.len() > 0 {
        let short = list.drop_last();
        let front = surviving(short);
        lemma_surviving(short);
        assert forall|i: int| 0 <= i < surviving(list).len() implies list.contains(
            #[trigger] surviving(list)[i],
        ) by {
            if i < front.len() {
                assert(short.contains(front[i]));
                let k = short.index_of(front[i]);
                assert(list[k] == front[i]);
            } else {
                assert(list[list.len() - 1] == list.last());
            }
        }
        if states_of(list).no_duplicates() {
            assert(states_of(short).no_duplicates()) by {
                assert forall|i: int, j: int|
                    0 <= i < short.len() && 0 <= j < short.len() && i != j implies states_of(
                    short,
                )[i] != states_of(short)[j] by {
                    assert(states_of(list)[i] != states_of(list)[j]);
                }
            }
            let all = states_of(surviving(list));
            assert forall|i: int, j: int|
                0 <= i < all.len() && 0 <= j < all.len() && i != j implies all[i] != all[j] by {
                if i < front.len() && j < front.len() {
                    assert(states_of(front)[i] != states_of(front)[j]);
                } else {
                    let m = if i < front.len() { i } else { j };
                    assert(short.contains(front[m]));
                    let k = short.index_of(front[m]);
                    assert(states_of(list)[k] != states_of(list)[list.len() - 1]);
                }
            }
        }
    }
}

/// Keeps the coefficients that do not vanish.
fn keep_surviving<S: StateOrder, V: Amplitude>(list: &Vec<Weighted<S, V>>) -> (result: Vec<
    Weighted<S, V>,
>)
    ensures
        result@ == surviving(list@),
{
    let mut result: Vec<Weighted<S, V>> = Vec::new();
    let mut position: usize = 0;
    assert(list@.subrange(0, 0) =~= Seq::empty());
    while position < list.len()
        invariant
            position <= list@.len(),
            result@ == surviving(list@.subrange(0, position as int)),
        decreases list@.len() - position,
    {
        let item: Weighted<S, V> = list[position];
        assert(list@.subrange(0, position + 1).drop_last() =~= list@.subrange(0, position as int));
        if !item.amplitude.vanishes() {
            result.push(item);
        }
        position = position + 1;
    }
    assert(list@.subrange(0, position as int) =~= list@);
    result
}

/// The place of the least state of a list.
fn find_least<S: StateOrder, V: Scalar>(list: &Vec<Weighted<S, V>>) -> (at: usize)
    requires
        list@.len() > 0,
        states_of(list@).no_duplicates(),
    ensures
        is_least(states_of(list@), at as int),
{
    let mut at: usize = 0;
    let mut index: usize = 1;
    while index < list.len()
        invariant
            at < index <= list@.len(),
            states_of(list@).no_duplicates(),
            forall|i: int|
                0 <= i < index && i != at ==> list@[at as int].state.before(
                    (#[trigger] list@[i]).state,
                ),
        decreases list@.len() - index,
    {
        let ghost old_at = at as int;
        proof {
            assert(states_of(list@)[index as int] != states_of(list@)[at as int]);
            S::lemma_order(list@[index as int].state, list@[at as int].state, list@[0].state);
        }
        if list[index].state.is_before(list[at].state) {
            at = index;
            proof {
                assert forall|i: int| 0 <= i < index + 1 && i != at implies list@[at as int].state.before(
                    (#[trigger] list@[i]).state,
                ) by {
                    S::lemma_order(
                        list@[at as int].state,
                        list@[old_at].state,
                        list@[i].state,
                    );
                }
            }
        }
        index = index + 1;
    }
    proof {
        let states = states_of(list@);
        assert forall|i: int| 0 <= i < states.len() && i != at implies states[at as int].before(
            #[trigger] states[i],
        ) by {
            assert(list@[at as int].state.before(list@[i].state));
        }
    }
    at
}

proof fn lemma_one_least<S: StateOrder>(list: Seq<S>, a: int, b: int)
    requires
        is_least(list, a),
        is_least(list, b),
    ensures
        a == b,
{
    if a != b {
        assert(list[a].before(list[b]));
        assert(list[b].before(list[a]));
        S::lemma_order(list[a], list[b], list[a]);
    }
}

/// The orbits found so far and the tables that hold them.
spec fn holds<P: Basis, V: Amplitude>(
    parent: &P,
    states: Seq<P::State>,
    sizes: Seq<usize>,
    images: Seq<Option<GeneralImage<P::State>>>,
    seen: Seq<bool>,
    orbits: Seq<OrbitRecord<P::State, V>>,
) -> bool where P::State: StateOrder {
    let listed = parent.listed();
    &&& order::ascending(states)
    &&& sizes.len() == states.len()
    &&& images.len() == listed.len()
    &&& seen.len() == listed.len()
    &&& forall|i: int| 0 <= i < states.len() ==> parent.accepts(#[trigger] states[i])
    &&& sized(states, sizes).to_multiset() == leads(orbits).to_multiset()
    &&& forall|i: int|
        0 <= i < images.len() ==> ((#[trigger] images[i]) matches Some(image) ==> states.contains(
            image.representative,
        ))
    &&& forall|state: P::State|
        listed.contains(state) ==> #[trigger] known(parent, images, seen, orbits, state)
}

/// The tables tell for a state of the parent basis where it lies in the orbits, and whether
/// it was met.
spec fn known<P: Basis, V: Amplitude>(
    parent: &P,
    images: Seq<Option<GeneralImage<P::State>>>,
    seen: Seq<bool>,
    orbits: Seq<OrbitRecord<P::State, V>>,
    state: P::State,
) -> bool where P::State: StateOrder {
    &&& images[parent.seat(state)] == image_in(orbits, state)
    &&& seen[parent.seat(state)] == visited(orbits, state)
}

/// Where images of a seed stand in the parent basis.
spec fn located<P: Basis, V>(
    parent: &P,
    list: Seq<Weighted<P::State, V>>,
    places: Seq<usize>,
) -> bool {
    &&& places.len() == list.len()
    &&& forall|i: int|
        0 <= i < list.len() ==> (#[trigger] places[i]) < parent.listed().len()
            && parent.listed()[places[i] as int] == list[i].state && places[i] == parent.seat(
            list[i].state,
        )
}

/// Finds states in the parent basis; nothing where one is missing.
fn locate<P: Basis, V: Scalar>(parent: &P, list: &Vec<Weighted<P::State, V>>) -> (found: Option<
    Vec<usize>,
>)
    requires
        parent.well_formed(),
    ensures
        match found {
            Some(places) => located(parent, list@, places@),
            None => exists|i: int|
                0 <= i < list@.len() && !parent.listed().contains((#[trigger] list@[i]).state),
        },
{
    let mut places: Vec<usize> = Vec::new();
    let mut index: usize = 0;
    while index < list.len()
        invariant
            parent.well_formed(),
            index <= list@.len(),
            places@.len() == index,
            forall|i: int|
                0 <= i < index ==> (#[trigger] places@[i]) < parent.listed().len()
                    && parent.listed()[places@[i] as int] == list@[i].state && places@[i]
                    == parent.seat(list@[i].state),
        decreases list@.len() - index,
    {
        match parent.index(list[index].state) {
            Ok(place) => {
                places.push(place);
            },
            Err(_) => {
                assert(!parent.listed().contains(list@[index as int].state));
                return None;
            },
        }
        index = index + 1;
    }
    Some(places)
}

/// Marks places.
fn mark(seen: &mut Vec<bool>, places: &Vec<usize>)
    requires
        forall|i: int| 0 <= i < places@.len() ==> (#[trigger] places@[i]) < old(seen)@.len(),
    ensures
        final(seen)@.len() == old(seen)@.len(),
        forall|p: int|
            0 <= p < final(seen)@.len() ==> #[trigger] final(seen)@[p] == (old(seen)@[p]
                || places@.contains(p as usize)),
{
    let ghost start = seen@;
    let total: usize = seen.len();
    let mut index: usize = 0;
    while index < places.len()
        invariant
            index <= places@.len(),
            seen@.len() == start.len(),
            start.len() == total,
            forall|i: int| 0 <= i < places@.len() ==> (#[trigger] places@[i]) < start.len(),
            forall|p: int|
                0 <= p < start.len() ==> #[trigger] seen@[p] == (start[p] || places@.subrange(
                    0,
                    index as int,
                ).contains(p as usize)),
        decreases places@.len() - index,
    {
        let place: usize = places[index];
        let ghost before = seen@;
        assert(places@[index as int] < start.len());
        seen.set(place, true);
        proof {
            let shorter = places@.subrange(0, index as int);
            let longer = places@.subrange(0, index + 1);
            assert(longer =~= shorter.push(place));
            assert forall|p: int| 0 <= p < start.len() implies #[trigger] seen@[p] == (start[p]
                || longer.contains(p as usize)) by {
                if longer.contains(p as usize) && p != place {
                    let k = longer.index_of(p as usize);
                    assert(shorter[k] == p);
                }
                if shorter.contains(p as usize) {
                    let k = shorter.index_of(p as usize);
                    assert(longer[k] == p);
                }
                assert(longer[index as int] == place);
                assert(before[p] == (start[p] || shorter.contains(p as usize)));
            }
        }
        index = index + 1;
    }
    assert(places@.subrange(0, index as int) =~= places@);
}

/// What a table holds for a state after an orbit was written into it.
spec fn rewritten<P: Basis, V: Amplitude>(
    parent: &P,
    members: Seq<P::State>,
    phases: Seq<V>,
    representative: P::State,
    size: usize,
    before: Seq<Option<GeneralImage<P::State>>>,
    after: Seq<Option<GeneralImage<P::State>>>,
    upto: int,
    state: P::State,
) -> bool {
    after[parent.seat(state)] == (if members.take(upto).contains(state) {
        Some(
            GeneralImage {
                representative,
                phase: phases[members.index_of(state)].pattern(),
                orbit_size: size,
            },
        )
    } else {
        before[parent.seat(state)]
    })
}

/// Writes the places of the members of an orbit into the table.
fn write_images<P: Basis, V: Amplitude>(
    parent: &P,
    live: &Vec<Weighted<P::State, V>>,
    places: &Vec<usize>,
    phases: &Vec<V>,
    representative: P::State,
    images: &mut Vec<Option<GeneralImage<P::State>>>,
)
    requires
        parent.well_formed(),
        located(parent, live@, places@),
        phases@.len() == live@.len(),
        old(images)@.len() == parent.listed().len(),
        states_of(live@).no_duplicates(),
    ensures
        final(images)@.len() == old(images)@.len(),
        forall|state: P::State|
            parent.listed().contains(state) ==> #[trigger] rewritten(
                parent,
                states_of(live@),
                phases@,
                representative,
                live@.len() as usize,
                old(images)@,
                final(images)@,
                live@.len() as int,
                state,
            ),
        forall|p: int|
            0 <= p < final(images)@.len() ==> #[trigger] final(images)@[p] == old(images)@[p] || (
            final(images)@[p] matches Some(image) && image.representative == representative),
{
    let ghost start = images@;
    let ghost members = states_of(live@);
    let size: usize = live.len();
    let mut index: usize = 0;
    while index < size
        invariant
            parent.well_formed(),
            located(parent, live@, places@),
            phases@.len() == live@.len(),
            size == live@.len(),
            images@.len() == start.len(),
            start.len() == parent.listed().len(),
            members == states_of(live@),
            members.no_duplicates(),
            index <= size,
            forall|state: P::State|
                parent.listed().contains(state) ==> #[trigger] rewritten(
                    parent,
                    members,
                    phases@,
                    representative,
                    size,
                    start,
                    images@,
                    index as int,
                    state,
                ),
            forall|p: int|
                0 <= p < start.len() ==> #[trigger] images@[p] == start[p] || (images@[p] matches Some(
                    image,
                ) && image.representative == representative),
        decreases size - index,
    {
        let place: usize = places[index];
        let ghost before = images@;
        assert(places@[index as int] < parent.listed().len());
        let phase: Bits = phases[index].to_bits();
        images.set(place, Some(GeneralImage { representative, phase, orbit_size: size }));
        proof {
            let shorter = members.take(index as int);
            let longer = members.take(index + 1);
            assert(longer =~= shorter.push(members[index as int]));
            assert forall|state: P::State|
                parent.listed().contains(state) implies #[trigger] rewritten(
                parent,
                members,
                phases@,
                representative,
                size,
                start,
                images@,
                index + 1,
                state,
            ) by {
                assert(rewritten(
                    parent,
                    members,
                    phases@,
                    representative,
                    size,
                    start,
                    before,
                    index as int,
                    state,
                ));
                parent.lemma_seat(state);
                if state == members[index as int] {
                    assert(longer[index as int] == state);
                    assert(members.contains(state));
                    assert(members[members.index_of(state)] == state);
                    assert(members.index_of(state) == index);
                } else {
                    assert(parent.seat(state) != place);
                    if longer.contains(state) {
                        let k = longer.index_of(state);
                        assert(shorter[k] == state);
                    }
                    if shorter.contains(state) {
                        let k = shorter.index_of(state);
                        assert(longer[k] == state);
                    }
                }
            }
        }
        index = index + 1;
    }
}

/// The tables hold one more orbit that does not survive.
proof fn lemma_hold_dead<P: Basis, V: Amplitude>(
    parent: &P,
    states: Seq<P::State>,
    sizes: Seq<usize>,
    images: Seq<Option<GeneralImage<P::State>>>,
    seen: Seq<bool>,
    marked: Seq<bool>,
    orbits: Seq<OrbitRecord<P::State, V>>,
    record: OrbitRecord<P::State, V>,
) where P::State: StateOrder
    requires
        holds(parent, states, sizes, images, seen, orbits),
        record.live is None,
        marked.len() == seen.len(),
        forall|state: P::State|
            parent.listed().contains(state) ==> #[trigger] marked[parent.seat(state)] == (
            seen[parent.seat(state)] || record.all.contains(state)),
    ensures
        holds(parent, states, sizes, images, marked, orbits.push(record)),
{
    let longer = orbits.push(record);
    assert(longer.drop_last() =~= orbits);
    assert(leads(longer) == leads(orbits));
    assert forall|state: P::State| parent.listed().contains(state) implies #[trigger] known(
        parent,
        images,
        marked,
        longer,
        state,
    ) by {
        assert(known(parent, images, seen, orbits, state));
        assert(marked[parent.seat(state)] == (seen[parent.seat(state)] || record.all.contains(
            state,
        )));
    }
}

/// The tables hold one more orbit that survives.
proof fn lemma_hold_live<P: Basis, V: Amplitude>(
    parent: &P,
    states: Seq<P::State>,
    sizes: Seq<usize>,
    images: Seq<Option<GeneralImage<P::State>>>,
    seen: Seq<bool>,
    marked: Seq<bool>,
    orbits: Seq<OrbitRecord<P::State, V>>,
    record: OrbitRecord<P::State, V>,
    place: int,
    written: Seq<Option<GeneralImage<P::State>>>,
) where P::State: StateOrder
    requires
        holds(parent, states, sizes, images, seen, orbits),
        record.live is Some,
        ({
            let live = record.live->0;
            let representative = live.members[live.chosen];
            &&& 0 <= live.chosen < live.members.len()
            &&& live.members.len() <= usize::MAX
            &&& parent.accepts(representative)
            &&& 0 <= place <= states.len()
            &&& forall|i: int| 0 <= i < place ==> !representative.before(#[trigger] states[i])
            &&& forall|i: int|
                place <= i < states.len() ==> representative.before(#[trigger] states[i])
            &&& written.len() == images.len()
            &&& forall|state: P::State|
                parent.listed().contains(state) ==> #[trigger] rewritten(
                    parent,
                    live.members,
                    live.phases,
                    representative,
                    live.members.len() as usize,
                    images,
                    written,
                    live.members.len() as int,
                    state,
                )
            &&& forall|p: int|
                0 <= p < written.len() ==> #[trigger] written[p] == images[p] || (
                written[p] matches Some(image) && image.representative == representative)
        }),
        marked.len() == seen.len(),
        forall|state: P::State|
            parent.listed().contains(state) ==> #[trigger] marked[parent.seat(state)] == (
            seen[parent.seat(state)] || record.all.contains(state)),
    ensures
        holds(
            parent,
            states.insert(place, record.live->0.members[record.live->0.chosen]),
            sizes.insert(place, record.live->0.members.len() as usize),
            written,
            marked,
            orbits.push(record),
        ),
{
    let live = record.live->0;
    let representative = live.members[live.chosen];
    let longer = orbits.push(record);
    let grown = states.insert(place, representative);
    let grown_sizes = sizes.insert(place, live.members.len() as usize);
    let entry = (representative, live.members.len());
    assert(longer.drop_last() =~= orbits);
    assert(live.members.take(live.members.len() as int) =~= live.members);
    assert forall|i: int, j: int| 0 <= i < j < grown.len() implies !(#[trigger] grown[j]).before(
        #[trigger] grown[i],
    ) by {
        if i < place && j > place {
            assert(!states[j - 1].before(states[i]));
        } else if i == place {
            assert(representative.before(states[j - 1]));
            P::State::lemma_order(representative, states[j - 1], representative);
        } else if j == place {
            assert(!representative.before(states[i]));
        } else if i < place {
            assert(!states[j].before(states[i]));
        } else {
            assert(!states[j - 1].before(states[i - 1]));
        }
    }
    assert forall|i: int| 0 <= i < grown.len() implies parent.accepts(#[trigger] grown[i]) by {
        if i < place {
            assert(grown[i] == states[i]);
        } else if i > place {
            assert(grown[i] == states[i - 1]);
        }
    }
    assert(sized(grown, grown_sizes) =~= sized(states, sizes).insert(place, entry));
    vstd::seq_lib::to_multiset_insert(sized(states, sizes), place, entry);
    vstd::seq_lib::to_multiset_build(leads(orbits), entry);
    assert(leads(longer) == leads(orbits).push(entry));
    assert forall|state: P::State| states.contains(state) implies grown.contains(state) by {
        let k = states.index_of(state);
        if k < place {
            assert(grown[k] == state);
        } else {
            assert(grown[k + 1] == state);
        }
    }
    assert(grown[place] == representative);
    assert forall|i: int| 0 <= i < written.len() implies ((#[trigger] written[i]) matches Some(
        image,
    ) ==> grown.contains(image.representative)) by {
        if written[i] == images[i] {
            if let Some(image) = images[i] {
                assert(states.contains(image.representative));
            }
        }
    }
    assert forall|state: P::State| parent.listed().contains(state) implies #[trigger] known(
        parent,
        written,
        marked,
        longer,
        state,
    ) by {
        assert(known(parent, images, seen, orbits, state));
        assert(rewritten(
            parent,
            live.members,
            live.phases,
            representative,
            live.members.len() as usize,
            images,
            written,
            live.members.len() as int,
            state,
        ));
        assert(marked[parent.seat(state)] == (seen[parent.seat(state)] || record.all.contains(
            state,
        )));
    }
}

impl<P: Basis> GeneralBasis<P> where P::State: StateOrder {
    /// The sector of a parent basis that symmetry maps select.
    pub fn new<V: Amplitude, M: SymmetryMap<P::State, V>>(
        parent: P,
        sector: SymmetrySector<M>,
    ) -> (result: Result<Self>)
        requires
            parent.well_formed(),
        ensures
            match result {
                Ok(basis) => {
                    &&& basis.wf()
                    &&& basis.base() == parent
                    &&& exists|orbits: Seq<OrbitRecord<P::State, V>>| #[trigger]
                        sweeps(
                            sector.generators@,
                            parent.listed(),
                            parent.listed().len(),
                            orbits,
                        ) && basis.describes(orbits)
                },
                Err(error) => exists|
                    upto: nat,
                    orbits: Seq<OrbitRecord<P::State, V>>,
                    fault: MapFault,
                |
                    {
                        &&& upto < parent.listed().len()
                        &&& #[trigger] sweeps(sector.generators@, parent.listed(), upto, orbits)
                        &&& #[trigger] obstructed(
                            sector.generators@,
                            parent.listed(),
                            orbits,
                            parent.listed()[upto as int],
                            fault,
                        )
                        &&& blames(error, fault)
                    },
            },
    {
        let total: usize = parent.len();
        let list: &Vec<SymmetryGenerator<M>> = &sector.generators;
        let plain: bool = list.len() == 0;
        let mut states: Vec<P::State> = Vec::new();
        let mut orbit_sizes: Vec<usize> = Vec::new();
        let mut images: Vec<Option<GeneralImage<P::State>>> = Vec::new();
        let mut seen: Vec<bool> = Vec::new();
        let mut index: usize = 0;
        let ghost mut orbits: Seq<OrbitRecord<P::State, V>> = Seq::empty();
        while index < total
            invariant
                index <= total,
                images@.len() == index,
                seen@.len() == index,
                forall|i: int| 0 <= i < index ==> #[trigger] images@[i] is None,
                forall|i: int| 0 <= i < index ==> !(#[trigger] seen@[i]),
            decreases total - index,
        {
            images.push(None);
            seen.push(false);
            index = index + 1;
        }
        proof {
            assert forall|state: P::State| parent.listed().contains(state) implies #[trigger] known(
                &parent,
                images@,
                seen@,
                orbits,
                state,
            ) by {
                parent.lemma_seat(state);
            }
            assert(sized(states@, orbit_sizes@) =~= leads(orbits));
        }
        index = 0;
        while index < total
            invariant
                parent.well_formed(),
                total == parent.listed().len(),
                list@ == sector.generators@,
                plain == (list@.len() == 0),
                index <= total,
                sweeps(list@, parent.listed(), index as nat, orbits),
                holds(&parent, states@, orbit_sizes@, images@, seen@, orbits),
            decreases total - index,
        {
            let ghost earlier = orbits;
            let seed: P::State = match parent.state(index) {
                Ok(state) => state,
                Err(error) => {
                    assert(false);
                    return Err(error);
                },
            };
            assert(parent.listed().contains(seed));
            let home: usize = match parent.index(seed) {
                Ok(home) => home,
                Err(error) => {
                    assert(false);
                    return Err(error);
                },
            };
            assert(known(&parent, images@, seen@, orbits, seed));
            if !plain && seen[home] {
                assert(extends(list@, earlier, parent.listed()[index as int], orbits));
            } else {
                let found: Vec<Weighted<P::State, V>>;
                let live: Vec<Weighted<P::State, V>>;
                if plain {
                    let mut one: Vec<Weighted<P::State, V>> = Vec::new();
                    one.push(Weighted { state: seed, amplitude: V::one() });
                    found = one;
                    let mut same: Vec<Weighted<P::State, V>> = Vec::new();
                    same.push(Weighted { state: seed, amplitude: V::one() });
                    live = same;
                } else {
                    let mut raw: Vec<Weighted<P::State, V>> = Vec::new();
                    match visit(list, 0, seed, V::one(), &mut raw) {
                        Ok(()) => {},
                        Err(error) => {
                            proof {
                                let fault = visits(list@, 0, seed, V::one_value())->Err_0;
                                assert(obstructed::<P::State, V, M>(
                                    list@,
                                    parent.listed(),
                                    orbits,
                                    parent.listed()[index as int],
                                    fault,
                                ));
                            }
                            return Err(error);
                        },
                    }
                    proof {
                        assert(raw@ =~= visits(list@, 0, seed, V::one_value())->Ok_0);
                        lemma_first_seen(raw@);
                    }
                    found = gather(&raw);
                    live = keep_surviving(&found);
                }
                proof {
                    if plain {
                        assert(states_of(found@) =~= seq![seed]);
                        assert(states_of(live@) =~= seq![seed]);
                    } else {
                        let raw = visits(list@, 0, seed, V::one_value())->Ok_0;
                        lemma_first_seen(raw);
                        assert(states_of(found@) =~= first_seen(raw));
                        lemma_surviving(found@);
                    }
                }
                let places: Vec<usize> = match locate(&parent, &found) {
                    Some(places) => places,
                    None => {
                        proof {
                            let i = choose|i: int|
                                0 <= i < found@.len() && !parent.listed().contains(
                                    (#[trigger] found@[i]).state,
                                );
                            if plain {
                                assert(found@[i].state == seed);
                                assert(parent.listed()[index as int] == seed);
                            }
                            assert(obstructed::<P::State, V, M>(
                                list@,
                                parent.listed(),
                                orbits,
                                parent.listed()[index as int],
                                MapFault::Incompatible,
                            ));
                        }
                        return Err(
                            QmbedError::IncompatibleSymmetry(
                                "a symmetry map leaves the parent basis".to_string(),
                            ),
                        );
                    },
                };
                let ghost old_seen = seen@;
                mark(&mut seen, &places);
                proof {
                    assert forall|state: P::State|
                        parent.listed().contains(state) implies #[trigger] seen@[parent.seat(state)]
                        == (old_seen[parent.seat(state)] || states_of(found@).contains(state)) by {
                        parent.lemma_seat(state);
                        let p = parent.seat(state);
                        if places@.contains(p as usize) {
                            let k = places@.index_of(p as usize);
                            assert(places@[k] == p);
                            assert(states_of(found@)[k] == state);
                        }
                        if states_of(found@).contains(state) {
                            let k = states_of(found@).index_of(state);
                            assert(found@[k].state == state);
                            assert(places@[k] == p);
                            assert(places@.contains(p as usize));
                        }
                    }
                }
                if live.len() == 0 {
                    proof {
                        let record = OrbitRecord::<P::State, V> {
                            all: states_of(found@),
                            live: None,
                        };
                        lemma_hold_dead(
                            &parent,
                            states@,
                            orbit_sizes@,
                            images@,
                            old_seen,
                            seen@,
                            orbits,
                            record,
                        );
                        orbits = orbits.push(record);
                        assert(orbits.drop_last() =~= earlier);
                        assert(extends(list@, earlier, parent.listed()[index as int], orbits));
                    }
                } else {
                    let chosen: usize = find_least(&live);
                    let representative: P::State = live[chosen].state;
                    let mut amplitudes: Vec<V> = Vec::new();
                    let mut position: usize = 0;
                    while position < live.len()
                        invariant
                            position <= live@.len(),
                            amplitudes@.len() == position,
                            forall|i: int|
                                0 <= i < position ==> #[trigger] amplitudes@[i]
                                    == live@[i].amplitude,
                        decreases live@.len() - position,
                    {
                        amplitudes.push(live[position].amplitude);
                        position = position + 1;
                    }
                    assert(amplitudes@ =~= amplitudes_of(live@));
                    let phases: Vec<V>;
                    if plain {
                        let mut one: Vec<V> = Vec::new();
                        one.push(V::one());
                        phases = one;
                        assert(chosen == 0);
                    } else {
                        match V::align(&amplitudes, chosen) {
                            Some(list) => {
                                phases = list;
                            },
                            None => {
                                proof {
                                    if one_dimensional(found@) {
                                        let other = choose|other: int| #[trigger]
                                            is_least(states_of(live@), other) && V::aligned(
                                                amplitudes_of(live@),
                                                other,
                                            ) is Some;
                                        lemma_one_least(states_of(live@), chosen as int, other);
                                    }
                                    assert(obstructed::<P::State, V, M>(
                                        list@,
                                        parent.listed(),
                                        orbits,
                                        parent.listed()[index as int],
                                        MapFault::Incompatible,
                                    ));
                                }
                                return Err(
                                    QmbedError::IncompatibleSymmetry(
                                        "symmetry maps do not define a one-dimensional orbit sector".to_string(),
                                    ),
                                );
                            },
                        }
                    }
                    let live_places: Vec<usize> = match locate(&parent, &live) {
                        Some(list) => list,
                        None => {
                            proof {
                                let i = choose|i: int|
                                    0 <= i < live@.len() && !parent.listed().contains(
                                        (#[trigger] live@[i]).state,
                                    );
                                if plain {
                                    assert(live@[i].state == seed);
                                    assert(parent.listed()[index as int] == seed);
                                } else {
                                    assert(found@.contains(live@[i]));
                                    let k = found@.index_of(live@[i]);
                                    assert(parent.listed()[places@[k] as int] == live@[i].state);
                                }
                                assert(false);
                            }
                            return Err(QmbedError::StateNotInBasis);
                        },
                    };
                    let accepted: P::State = match parent.state(live_places[chosen]) {
                        Ok(state) => state,
                        Err(error) => {
                            assert(false);
                            return Err(error);
                        },
                    };
                    let place: usize = order::place_behind(&states, representative);
                    let ghost old_images = images@;
                    let ghost old_states = states@;
                    let ghost old_sizes = orbit_sizes@;
                    let size: usize = live.len();
                    write_images(
                        &parent,
                        &live,
                        &live_places,
                        &phases,
                        representative,
                        &mut images,
                    );
                    states.insert(place, representative);
                    orbit_sizes.insert(place, size);
                    proof {
                        let record = OrbitRecord::<P::State, V> {
                            all: states_of(found@),
                            live: Some(
                                Live {
                                    members: states_of(live@),
                                    phases: phases@,
                                    chosen: chosen as int,
                                },
                            ),
                        };
                        if plain {
                            assert(record.live->0.phases =~= seq![V::one_value()]);
                            assert(record == alone::<P::State, V>(seed));
                        } else {
                            assert(records(found@, record));
                        }
                        lemma_hold_live(
                            &parent,
                            old_states,
                            old_sizes,
                            old_images,
                            old_seen,
                            seen@,
                            orbits,
                            record,
                            place as int,
                            images@,
                        );
                        orbits = orbits.push(record);
                        assert(orbits.drop_last() =~= earlier);
                        assert(extends(list@, earlier, parent.listed()[index as int], orbits));
                    }
                }
            }
            proof {
                let upto = (index + 1) as nat;
                assert(sweeps(list@, parent.listed(), (upto - 1) as nat, earlier));
                assert(extends(list@, earlier, parent.listed()[upto - 1], orbits));
                assert(sweeps(list@, parent.listed(), upto, orbits));
            }
            index = index + 1;
        }
        let basis = GeneralBasis { parent, states, orbit_sizes, images };
        proof {
            assert(basis.states@.len() == basis.states.len());
            assert(basis.wf());
            assert forall|state: P::State|
                basis.base().listed().contains(state) implies #[trigger] basis.lookup(state)
                == image_in(orbits, state) by {
                assert(known(&basis.parent, basis.images@, seen@, orbits, state));
            }
            assert(basis.describes(orbits));
        }
        Ok(basis)
    }

    /// The basis that the sector was taken from.
    pub fn parent(&self) -> (parent: &P)
        ensures
            *parent == self.base(),
    {
        &self.parent
    }

    /// The state that stands for the orbit of a state.
    pub fn representative(&self, state: P::State) -> (result: Result<P::State>)
        requires
            self.wf(),
        ensures
            match result {
                Ok(representative) => self.lookup(state) is Some && representative == self.lookup(
                    state,
                )->0.representative,
                Err(error) => error is StateNotInBasis && self.lookup(state) is None,
            },
    {
        match self.find_image(state) {
            Some(image) => Ok(image.representative),
            None => Err(QmbedError::StateNotInBasis),
        }
    }

    /// The number of states in the orbit of a state.
    pub fn orbit_size(&self, state: P::State) -> (result: Result<usize>)
        requires
            self.wf(),
        ensures
            match result {
                Ok(size) => self.lookup(state) is Some && size == self.lookup(state)->0.orbit_size,
                Err(error) => error is StateNotInBasis && self.lookup(state) is None,
            },
    {
        match self.find_image(state) {
            Some(image) => Ok(image.orbit_size),
            None => Err(QmbedError::StateNotInBasis),
        }
    }

    /// The phase of a state relative to its orbit, with the size of the orbit; the
    /// amplitude of the state is the phase over the square root of the size.
    pub fn symmetry_amplitude<V: Amplitude>(&self, state: P::State) -> (result: Result<(V, usize)>)
        requires
            self.wf(),
        ensures
            match result {
                Ok(found) => self.lookup(state) is Some && found == (
                    V::of_bits(self.lookup(state)->0.phase),
                    self.lookup(state)->0.orbit_size,
                ),
                Err(error) => error is StateNotInBasis && self.lookup(state) is None,
            },
    {
        match self.find_image(state) {
            Some(image) => Ok((V::from_bits(image.phase), image.orbit_size)),
            None => Err(QmbedError::StateNotInBasis),
        }
    }

    /// Where a state lies in its orbit; nothing where it belongs to no orbit that survives.
    pub fn find_image(&self, state: P::State) -> (image: Option<GeneralImage<P::State>>)
        requires
            self.wf(),
        ensures
            image == self.lookup(state),
    {
        match self.parent.index(state) {
            Ok(place) => {
                assert(self.parent.listed().contains(state));
                self.images[place]
            },
            Err(_) => None,
        }
    }
}

impl<P: Basis> Basis for GeneralBasis<P> where P::State: StateOrder {
    type State = P::State;

    open spec fn well_formed(&self) -> bool {
        self.wf()
    }

    open spec fn listed(&self) -> Seq<P::State> {
        self.representatives()
    }

    open spec fn accepts(&self, state: P::State) -> bool {
        self.base().accepts(state)
    }

    open spec fn action(
        &self,
        state: P::State,
        symbols: Seq<char>,
        split: Option<usize>,
        sites: Seq<usize>,
    ) -> ProductOutcome<P::State> {
        self.base().action(state, symbols, split, sites)
    }

    open spec fn distinct(&self) -> bool {
        self.representatives().no_duplicates()
    }

    /// A state that stands for several orbits is found in the first of its places.
    open spec fn seat(&self, state: P::State) -> int {
        order::first_place(self.representatives(), state)
    }

    proof fn lemma_seat(&self, state: P::State) {
        order::lemma_first_place(self.representatives(), state);
    }

    proof fn lemma_distinct(&self) {
    }

    open spec fn orbit_weight(&self, state: P::State) -> nat {
        if self.representatives().contains(state) {
            self.sizes()[self.seat(state)] as nat
        } else {
            0
        }
    }

    open spec fn landing(&self, state: P::State, source_orbit: usize) -> Option<Landing> {
        match self.lookup(state) {
            None => None,
            Some(image) => Some(
                Landing {
                    index: self.seat(image.representative) as usize,
                    reduction: Reduction {
                        turn: 0,
                        steps: 1,
                        given: Some(image.phase),
                        source_orbit,
                        target_orbit: image.orbit_size,
                    },
                },
            ),
        }
    }

    open spec fn two_parts(&self) -> bool {
        self.base().two_parts()
    }

    fn needs_separator(&self) -> (needed: bool) {
        self.parent.needs_separator()
    }

    open spec fn orbit_reduced(&self) -> bool {
        true
    }

    fn is_orbit_reduced(&self) -> (reduced: bool) {
        true
    }

    fn len(&self) -> (length: usize) {
        self.states.len()
    }

    fn state(&self, index: usize) -> (result: Result<P::State>) {
        if index < self.states.len() {
            assert(self.base().accepts(self.representatives()[index as int]));
            Ok(self.states[index])
        } else {
            Err(QmbedError::StateNotInBasis)
        }
    }

    fn index(&self, state: P::State) -> (result: Result<usize>) {
        match order::find_state(&self.states, state) {
            Some(place) => Ok(place),
            None => Err(QmbedError::StateNotInBasis),
        }
    }

    fn unreduced_transitions(
        &self,
        state: P::State,
        symbols: &[char],
        split: Option<usize>,
        sites: &[usize],
    ) -> (result: Result<Vec<Transition<P::State>>>) {
        self.parent.unreduced_transitions(state, symbols, split, sites)
    }

    fn transition_orbit_size(&self, state: P::State) -> (result: Result<usize>) {
        match order::find_state(&self.states, state) {
            Some(place) => {
                assert(self.representatives().contains(state));
                Ok(self.orbit_sizes[place])
            },
            None => Err(QmbedError::StateNotInBasis),
        }
    }

    open spec fn preservation(&self, operator: Seq<char>) -> std::result::Result<bool, Fault> {
        self.base().preservation(operator)
    }

    fn operator_preserves_particle_sector(&self, operator: &str) -> (result: Result<bool>) {
        self.parent.operator_preserves_particle_sector(operator)
    }

    fn index_transition(&self, state: P::State, source_orbit_size: usize) -> (result: Option<
        Landing,
    >) {
        match self.find_image(state) {
            None => None,
            Some(image) => {
                proof {
                    self.base().lemma_seat(state);
                    assert(self.table()[self.base().seat(state)] == Some(image));
                    assert(self.representatives().contains(image.representative));
                }
                match order::find_state(&self.states, image.representative) {
                    Some(index) => {
                        Some(
                            Landing {
                                index,
                                reduction: Reduction {
                                    turn: 0,
                                    steps: 1,
                                    given: Some(image.phase),
                                    source_orbit: source_orbit_size,
                                    target_orbit: image.orbit_size,
                                },
                            },
                        )
                    },
                    None => {
                        assert(false);
                        None
                    },
                }
            },
        }
    }
}

/// No state lies in two of the orbits, and the state that stands for an orbit lies in it.
pub open spec fn separate<S, V>(orbits: Seq<OrbitRecord<S, V>>) -> bool
    decreases orbits.len(),
{
    orbits.len() == 0 || {
        &&& separate(orbits.drop_last())
        &&& forall|state: S| #[trigger]
            orbits.last().all.contains(state) ==> !visited(orbits.drop_last(), state)
        &&& orbits.last().live matches Some(live) ==> orbits.last().all.contains(
            live.members[live.chosen],
        )
    }
}

proof fn lemma_led_once<S, V>(orbits: Seq<OrbitRecord<S, V>>)
    requires
        separate(orbits),
    ensures
        forall|k: int|
            0 <= k < leads(orbits).len() ==> visited(orbits, (#[trigger] leads(orbits)[k]).0),
        forall|k: int, l: int|
            0 <= k < l < leads(orbits).len() ==> (#[trigger] leads(orbits)[k]).0 != (
            #[trigger] leads(orbits)[l]).0,
    decreases orbits.len(),
{
    if orbits.len() > 0 {
        lemma_led_once(orbits.drop_last());
        let front = leads(orbits.drop_last());
        let all = leads(orbits);
        assert forall|k: int| 0 <= k < all.len() implies visited(orbits, (#[trigger] all[k]).0) by {
            if k < front.len() {
                assert(all[k] == front[k]);
            }
        }
        assert forall|k: int, l: int| 0 <= k < l < all.len() implies (#[trigger] all[k]).0 != (
        #[trigger] all[l]).0 by {
            assert(all[k] == front[k]);
            if l < front.len() {
                assert(all[l] == front[l]);
            } else {
                assert(orbits.last().all.contains(all[l].0));
            }
        }
    }
}

/// Where the orbits of the symmetry maps do not overlap, a sector lists no state twice.
pub proof fn separate_orbits_are_listed_once<P: Basis, V: Amplitude>(
    basis: &GeneralBasis<P>,
    orbits: Seq<OrbitRecord<P::State, V>>,
) where P::State: StateOrder
    requires
        basis.wf(),
        basis.describes(orbits),
        separate(orbits),
    ensures
        basis.distinct(),
{
    lemma_led_once(orbits);
    let listed = sized(basis.representatives(), basis.sizes());
    let all = leads(orbits);
    assert(all.no_duplicates());
    all.lemma_multiset_has_no_duplicates();
    listed.lemma_multiset_has_no_duplicates_conv();
    assert forall|i: int, j: int|
        0 <= i < listed.len() && 0 <= j < listed.len() && i != j implies basis.representatives()[i]
        != basis.representatives()[j] by {
        vstd::seq_lib::to_multiset_contains(listed, listed[i]);
        vstd::seq_lib::to_multiset_contains(listed, listed[j]);
        vstd::seq_lib::to_multiset_contains(all, listed[i]);
        vstd::seq_lib::to_multiset_contains(all, listed[j]);
        assert(listed.contains(listed[i]) && listed.contains(listed[j]));
        assert(listed[i] != listed[j]);
        let k = all.index_of(listed[i]);
        let l = all.index_of(listed[j]);
        assert(all[k] == listed[i] && all[l] == listed[j]);
        if k < l {
            assert(all[k].0 != all[l].0);
        } else {
            assert(all[l].0 != all[k].0);
        }
    }
}

} // verus!
