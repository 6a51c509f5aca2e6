//! How the states of a sector turn when the ring is moved.

use vstd::prelude::*;
use vstd::arithmetic::div_mod::*;
use crate::lattice;
use crate::radix;
use crate::spin;
use crate::symmetry::{RingSector, RingSymmetry, SymmetryImage};
use crate::symmetry;

verus! {

/// One step around the ring turns a state of a sector by its momentum, and by half a turn more
/// where an odd number of fermions is exchanged: the representative and the size of the orbit
/// stay the same, and the phase grows by the momentum.
pub proof fn steps_turn_by_the_momentum(
    symmetry: RingSymmetry,
    state: u128,
    next: u128,
    image: SymmetryImage,
    moved: SymmetryImage,
)
    requires
        symmetry.wf(),
        symmetry.momentum is Some,
        symmetry.sites > 1,
        symmetry.state(state as nat),
        next == lattice::rotated_state(
            state as nat,
            1,
            symmetry.sites as nat,
            symmetry.base as nat,
        ),
        symmetry::locates(symmetry, state, image),
        symmetry::locates(symmetry, next, moved),
    ensures
        moved.representative == image.representative,
        moved.orbit_size == image.orbit_size,
        ({
            let digits = radix::digits(
                state as nat,
                symmetry.base as nat,
                symmetry.sites as nat,
            );
            let last = digits[symmetry.sites - 1];
            let others = radix::total(digits) - last;
            let odd = symmetry.fermionic && (last * others) % 2 == 1;
            moved.turn == (image.turn + 2 * symmetry.wave() + (if odd {
                symmetry.sites as int
            } else {
                0
            })) % (2 * symmetry.sites as int)
        }),
{
    let one = (1nat, false);
    let s = state as nat;
    let n = symmetry.sites as nat;
    let r = image.representative as nat;
    assert(symmetry.element(one));
    assert(symmetry.act(one, s) == next);
    lemma_same_orbit(symmetry, state, next, image, moved, one);
    let digits = radix::digits(s, symmetry.base as nat, n);
    let last = digits[n - 1];
    assert(digits.subrange(n - 1, n as int) =~= seq![last]);
    radix::lemma_total_single(last);
    assert(symmetry.wrapped(s, 1) == last);
    let odd = symmetry.exchanges_oddly(s, 1);
    let step = 2 * symmetry.wave() * 1 + (if symmetry.fermionic && odd {
        n
    } else {
        0
    });
    lemma_add_mod_noop_right(image.turn as int, step as int, 2 * n as int);
}

/// A reflection turns a state of a sector by half a turn where the sector is odd, and not at
/// all where it is even.
pub proof fn reflections_turn_by_the_parity(
    symmetry: RingSymmetry,
    state: u128,
    mirrored: u128,
    image: SymmetryImage,
    moved: SymmetryImage,
)
    requires
        symmetry.wf(),
        symmetry.parity is Some,
        symmetry.state(state as nat),
        mirrored == lattice::reflected_state(
            state as nat,
            symmetry.sites as nat,
            symmetry.base as nat,
        ),
        symmetry::locates(symmetry, state, image),
        symmetry::locates(symmetry, mirrored, moved),
    ensures
        moved.representative == image.representative,
        moved.orbit_size == image.orbit_size,
        moved.turn == (image.turn + (if symmetry.parity == Some(-1i8) {
            symmetry.sites as int
        } else {
            0
        })) % (2 * symmetry.sites as int),
{
    let mirror = (0nat, true);
    let s = state as nat;
    let n = symmetry.sites as nat;
    assert(symmetry.element(mirror));
    symmetry.lemma_identity(s);
    assert(symmetry.act((0, false), s) == s);
    assert(symmetry.act(mirror, s) == mirrored);
    lemma_same_orbit(symmetry, state, mirrored, image, moved, mirror);
    let step: int = if symmetry.parity == Some(-1i8) {
        n as int
    } else {
        0
    };
    assert(2 * symmetry.wave() * 0 == 0) by (nonlinear_arith);
    lemma_add_mod_noop_right(image.turn as int, step, 2 * n as int);
}

/// A translation puts what a site holds that many sites further around the ring, and a
/// reflection puts it as far from the other end.
pub proof fn ring_maps_move_sites(state: nat, shift: nat, sites: nat, base: nat, site: int)
    requires
        base > 0,
        shift < sites,
        0 <= site < sites,
    ensures
        radix::digits(lattice::rotated_state(state, shift, sites, base), base, sites)[(site
            + shift) % (sites as int)] == radix::digits(state, base, sites)[site],
        radix::digits(lattice::reflected_state(state, sites, base), base, sites)[sites - 1
            - site] == radix::digits(state, base, sites)[site],
{
    let ds = radix::digits(state, base, sites);
    lattice::lemma_rotated_state_digits(state, shift, sites, base);
    lattice::lemma_rotated_index(ds, shift);
    lattice::lemma_reflected_state_digits(state, sites, base);
    if site + shift < sites {
        lemma_small_mod((site + shift) as nat, sites);
    } else {
        lemma_fundamental_div_mod_converse(site + shift, sites as int, 1, site + shift - sites);
    }
}

proof fn lemma_same_orbit(
    symmetry: RingSymmetry,
    state: u128,
    next: u128,
    image: SymmetryImage,
    moved: SymmetryImage,
    g: (nat, bool),
)
    requires
        symmetry.wf(),
        symmetry.state(state as nat),
        symmetry.element(g),
        symmetry.act(g, state as nat) == next,
        symmetry::locates(symmetry, state, image),
        symmetry::locates(symmetry, next, moved),
    ensures
        moved.representative == image.representative,
        moved.orbit_size == image.orbit_size,
        moved.turn == (image.turn + symmetry.turn(g, state as nat)) % (2
            * symmetry.sites as int),
{
    let s = state as nat;
    let r = image.representative as nat;
    symmetry::orbits_are_shared(symmetry, s, g);
    assert(symmetry.is_representative(next as nat, r));
    let m = moved.representative as nat;
    assert(symmetry.is_representative(s, m));
    let a = choose|h: (nat, bool)| symmetry.element(h) && #[trigger] symmetry.act(h, s) == r;
    let b = choose|h: (nat, bool)| symmetry.element(h) && #[trigger] symmetry.act(h, s) == m;
    assert(r <= symmetry.act(b, s));
    assert(m <= symmetry.act(a, s));
    symmetry.lemma_act(a, s);
    let back = symmetry.elements_invert(a, s);
    assert(symmetry.act(back, r) == s);
    assert(symmetry.turn(back, r) == image.turn);
    let k = symmetry.elements_compose(back, g, r);
    assert(symmetry.act(k, r) == next);
    assert(symmetry.turn(k, r) == moved.turn);
}

/// A state that lands in a sector lands in the row of its representative, with the phase of
/// its place in the orbit over all half steps of the ring, from the orbit that it comes from to
/// the orbit that is listed for the row.
pub proof fn landings_name_both_orbits(
    symmetry: RingSymmetry,
    sector: RingSector,
    parent: Seq<u128>,
    state: u128,
    source_orbit: usize,
)
    requires
        symmetry.wf(),
        sector.describes(symmetry, parent),
        sector.members@.contains(state),
        2 * symmetry.sites <= usize::MAX,
        sector.states@.len() <= usize::MAX,
    ensures
        ({
            let landing = spin::ring_landing(sector, symmetry.sites, state, source_orbit);
            &&& landing is Some
            &&& landing->0.index < sector.states@.len()
            &&& symmetry.is_representative(
                state as nat,
                sector.states@[landing->0.index as int] as nat,
            )
            &&& landing->0.reduction.source_orbit == source_orbit
            &&& landing->0.reduction.target_orbit == sector.orbit_sizes@[landing->0.index as int]
            &&& landing->0.reduction.steps == 2 * symmetry.sites
            &&& landing->0.reduction.given is None
            &&& forall|g: (nat, bool)|
                symmetry.element(g) && #[trigger] symmetry.act(
                    g,
                    sector.states@[landing->0.index as int] as nat,
                ) == state ==> symmetry.turn(
                    g,
                    sector.states@[landing->0.index as int] as nat,
                ) == landing->0.reduction.turn
        }),
{
    let at = sector.members@.index_of(state);
    assert(sector.members@[at] == state);
    let image = sector.images@[at];
    assert(symmetry::locates(symmetry, sector.members[at], sector.images[at]));
    assert(sector.states@.contains(image.representative));
    let row = sector.states@.index_of(image.representative);
    assert(sector.states@[row] == image.representative);
    assert(sector.orbit_sizes[row] == symmetry.orbit(sector.states[row] as nat).len());
}

} // verus!
