//! Rearrangements of a lattice carry local states and creation operators along.

use vstd::prelude::*;
use vstd::arithmetic::div_mod::*;
use crate::fermion;
use crate::interop;
use crate::lattice_map::{ExchangeStatistics, LatticeSymmetryMap};
use crate::lattice_map;
use crate::radix;

verus! {

/// How many of the first numbers have a property.
pub open spec fn tally(holds: spec_fn(int) -> bool, upto: nat) -> nat
    decreases upto,
{
    if upto == 0 {
        0
    } else {
        tally(holds, (upto - 1) as nat) + (if holds(upto - 1) {
            1nat
        } else {
            0
        })
    }
}

proof fn lemma_tally_same(
    first: spec_fn(int) -> bool,
    second: spec_fn(int) -> bool,
    upto: nat,
)
    requires
        forall|i: int| 0 <= i < upto ==> #[trigger] first(i) == second(i),
    ensures
        tally(first, upto) == tally(second, upto),
    decreases upto,
{
    if upto > 0 {
        lemma_tally_same(first, second, (upto - 1) as nat);
        assert(first(upto - 1) == second(upto - 1));
    }
}

proof fn lemma_tally_split(
    whole: spec_fn(int) -> bool,
    first: spec_fn(int) -> bool,
    second: spec_fn(int) -> bool,
    upto: nat,
)
    requires
        forall|i: int|
            0 <= i < upto ==> #[trigger] whole(i) == (first(i) || second(i)) && !(first(i)
                && second(i)),
    ensures
        tally(whole, upto) == tally(first, upto) + tally(second, upto),
    decreases upto,
{
    if upto > 0 {
        lemma_tally_split(whole, first, second, (upto - 1) as nat);
        assert(whole(upto - 1) == (first(upto - 1) || second(upto - 1)));
    }
}

proof fn lemma_tally_more(
    before: spec_fn(int) -> bool,
    after: spec_fn(int) -> bool,
    at: int,
    upto: nat,
)
    requires
        0 <= at < upto,
        !before(at),
        forall|i: int| 0 <= i < upto && i != at ==> #[trigger] after(i) == before(i),
    ensures
        tally(after, upto) == tally(before, upto) + (if after(at) {
            1nat
        } else {
            0
        }),
    decreases upto,
{
    if at == upto - 1 {
        lemma_tally_same(after, before, (upto - 1) as nat);
    } else {
        lemma_tally_more(before, after, at, (upto - 1) as nat);
        assert(after(upto - 1) == before(upto - 1));
    }
}

/// The site is occupied.
spec fn filled(ds: Seq<nat>) -> spec_fn(int) -> bool {
    |i: int| ds[i] != 0
}

/// An occupied site that lands below.
spec fn landing_below(ds: Seq<nat>, p: Seq<usize>, bound: int) -> spec_fn(int) -> bool {
    |i: int| ds[i] != 0 && p[i] < bound
}

/// An occupied earlier site that lands above another site.
spec fn passed(ds: Seq<nat>, p: Seq<usize>, a: int) -> spec_fn(int) -> bool {
    |i: int| i < a && ds[i] != 0 && p[i] > p[a]
}

/// An occupied later site that lands below another site.
spec fn passing(ds: Seq<nat>, p: Seq<usize>, a: int) -> spec_fn(int) -> bool {
    |i: int| i > a && ds[i] != 0 && p[i] < p[a]
}

proof fn lemma_overtaken(ds: Seq<nat>, p: Seq<usize>, a: int, j: int, upto: nat)
    requires
        0 <= a < ds.len(),
        ds[a] == 0,
        upto <= ds.len(),
    ensures
        lattice_map::overtaken(ds.update(a, 1), p, j, upto) == lattice_map::overtaken(
            ds,
            p,
            j,
            upto,
        ) + (if a < upto && p[a] > p[j] {
            1nat
        } else {
            0
        }),
    decreases upto,
{
    if upto > 0 {
        lemma_overtaken(ds, p, a, j, (upto - 1) as nat);
    }
}

proof fn lemma_overtaken_tally(ds: Seq<nat>, p: Seq<usize>, a: int, upto: nat)
    requires
        upto <= a,
    ensures
        lattice_map::overtaken(ds, p, a, upto) == tally(passed(ds, p, a), upto),
    decreases upto,
{
    if upto > 0 {
        lemma_overtaken_tally(ds, p, a, (upto - 1) as nat);
    }
}

proof fn lemma_exchanges(ds: Seq<nat>, p: Seq<usize>, a: int, upto: nat)
    requires
        0 <= a < ds.len(),
        ds[a] == 0,
        upto <= ds.len(),
        p.len() == ds.len(),
        p.no_duplicates(),
    ensures
        lattice_map::exchanges(ds.update(a, 1), p, upto) == lattice_map::exchanges(
            ds,
            p,
            upto,
        ) + (if a < upto {
            tally(passed(ds, p, a), a as nat)
        } else {
            0
        }) + tally(passing(ds, p, a), upto),
    decreases upto,
{
    if upto > 0 {
        let j = upto - 1;
        lemma_exchanges(ds, p, a, j as nat);
        lemma_overtaken(ds, p, a, j, j as nat);
        if j == a {
            lemma_overtaken_tally(ds, p, a, a as nat);
        } else {
            assert(p[j] != p[a]);
        }
    }
}

proof fn lemma_total_tally(ds: Seq<nat>, upto: nat)
    requires
        upto <= ds.len(),
        forall|i: int| 0 <= i < ds.len() ==> #[trigger] ds[i] < 2,
    ensures
        radix::total(ds.subrange(0, upto as int)) == tally(filled(ds), upto),
    decreases upto,
{
    if upto == 0 {
        assert(ds.subrange(0, 0) =~= Seq::<nat>::empty());
    } else {
        let shorter = (upto - 1) as nat;
        lemma_total_tally(ds, shorter);
        assert(ds.subrange(0, upto as int) =~= ds.subrange(0, shorter as int) + seq![
            ds[shorter as int],
        ]);
        radix::lemma_total_concat(ds.subrange(0, shorter as int), seq![ds[shorter as int]]);
        radix::lemma_total_single(ds[shorter as int]);
    }
}

/// The occupied sites that land below a bound are the occupied sites below it afterwards.
proof fn lemma_landed(ds: Seq<nat>, dm: Seq<nat>, p: Seq<usize>, bound: nat)
    requires
        interop::is_permutation(p),
        ds.len() == p.len(),
        dm.len() == p.len(),
        bound <= p.len(),
        p.len() <= usize::MAX,
        forall|i: int| 0 <= i < p.len() ==> dm[#[trigger] p[i] as int] == ds[i],
    ensures
        tally(landing_below(ds, p, bound as int), p.len()) == tally(filled(dm), bound),
    decreases bound,
{
    let n = p.len();
    let after = landing_below(ds, p, bound as int);
    if bound == 0 {
        let none = |i: int| false;
        lemma_tally_same(after, none, n);
        lemma_tally_none(n);
    } else {
        let shorter = (bound - 1) as nat;
        lemma_landed(ds, dm, p, shorter);
        let before = landing_below(ds, p, shorter as int);
        lattice_map::lemma_reaches_all(p, shorter as usize);
        let from = p.index_of(shorter as usize);
        assert(p[from] == shorter);
        assert forall|i: int| 0 <= i < n && i != from implies #[trigger] after(i) == before(
            i,
        ) by {
            assert(p[i] != p[from]);
        }
        lemma_tally_more(before, after, from, n);
        assert(dm[p[from] as int] == ds[from]);
    }
}

proof fn lemma_tally_none(upto: nat)
    ensures
        tally(|i: int| false, upto) == 0,
    decreases upto,
{
    if upto > 0 {
        lemma_tally_none((upto - 1) as nat);
    }
}

/// A rearrangement puts what a site holds, relabelled, where the site moves to.
pub proof fn sites_carry_their_states(map: &LatticeSymmetryMap, state: u128, site: int)
    requires
        map.wf(),
        state < map.capacity(),
        0 <= site < map.spec_permutation().len(),
    ensures
        map.moved(state) < map.capacity(),
        radix::digits(
            map.moved(state),
            map.spec_states_per_site() as nat,
            map.spec_permutation().len(),
        )[map.spec_permutation()[site] as int] == (match map.spec_levels() {
            Some(levels) => levels[site][radix::digits(
                state as nat,
                map.spec_states_per_site() as nat,
                map.spec_permutation().len(),
            )[site] as int] as nat,
            None => radix::digits(
                state as nat,
                map.spec_states_per_site() as nat,
                map.spec_permutation().len(),
            )[site],
        }),
{
    lattice_map::lemma_moved_digit(map, state, site);
}

/// Where nothing is relabelled, every site finds what it held where it is moved to.
proof fn lemma_plain_move(map: &LatticeSymmetryMap, state: u128)
    requires
        map.wf(),
        map.is_sound(),
        map.spec_statistics() == ExchangeStatistics::Fermionic,
        state < map.capacity(),
    ensures
        map.spec_states_per_site() == 2,
        forall|i: int|
            0 <= i < map.spec_permutation().len() ==> radix::digits(
                map.moved(state),
                2,
                map.spec_permutation().len(),
            )[#[trigger] map.spec_permutation()[i] as int] == radix::digits(
                state as nat,
                2,
                map.spec_permutation().len(),
            )[i],
{
    let p = map.spec_permutation();
    let n = p.len();
    let ds = radix::digits(state as nat, 2, n);
    radix::lemma_digits_valid(state as nat, 2, n);
    assert forall|i: int| 0 <= i < n implies radix::digits(map.moved(state), 2, n)[
        #[trigger] p[i] as int] == ds[i] by {
        lattice_map::lemma_moved_digit(map, state, i);
        assert(lattice_map::relabelled(map.spec_levels(), i, ds[i]) == ds[i]);
    }
}

/// What is changed on one site is changed where the site is moved to.
proof fn lemma_moved_update(
    ds: Seq<nat>,
    dm: Seq<nat>,
    df: Seq<nat>,
    dmf: Seq<nat>,
    p: Seq<usize>,
    a: int,
)
    requires
        interop::is_permutation(p),
        p.len() <= usize::MAX,
        ds.len() == p.len(),
        dm.len() == p.len(),
        df == ds.update(a, 1),
        dmf.len() == p.len(),
        0 <= a < p.len(),
        forall|i: int| 0 <= i < p.len() ==> dm[#[trigger] p[i] as int] == ds[i],
        forall|i: int| 0 <= i < p.len() ==> dmf[#[trigger] p[i] as int] == df[i],
    ensures
        dmf == dm.update(p[a] as int, 1),
{
    assert forall|k: int| 0 <= k < p.len() implies dmf[k] == dm.update(p[a] as int, 1)[k] by {
        lattice_map::lemma_reaches_all(p, k as usize);
        let from = p.index_of(k as usize);
        assert(p[from] == k as usize);
        assert(dmf[p[from] as int] == df[from]);
        assert(dm[p[from] as int] == ds[from]);
        if from != a {
            assert(p[from] != p[a]);
        }
    }
    assert(dmf =~= dm.update(p[a] as int, 1));
}

/// The parities of the exchanges and of the particles passed.
proof fn lemma_parities(ds: Seq<nat>, dm: Seq<nat>, p: Seq<usize>, a: int)
    requires
        interop::is_permutation(p),
        p.len() <= usize::MAX,
        ds.len() == p.len(),
        dm.len() == p.len(),
        0 <= a < p.len(),
        ds[a] == 0,
        forall|i: int| 0 <= i < ds.len() ==> #[trigger] ds[i] < 2,
        forall|i: int| 0 <= i < dm.len() ==> #[trigger] dm[i] < 2,
        forall|i: int| 0 <= i < p.len() ==> dm[#[trigger] p[i] as int] == ds[i],
    ensures
        (lattice_map::exchanges(ds.update(a, 1), p, p.len()) + radix::total(
            ds.subrange(0, a),
        )) % 2 == (lattice_map::exchanges(ds, p, p.len()) + radix::total(
            dm.subrange(0, p[a] as int),
        )) % 2,
{
    let n = p.len();
    let there = p[a] as int;
    lemma_exchanges(ds, p, a, n);
    lemma_total_tally(ds, a as nat);
    lemma_total_tally(dm, there as nat);
    lemma_landed(ds, dm, p, there as nat);
    let all = filled(ds);
    let x = passed(ds, p, a);
    let below = |i: int| i < a && ds[i] != 0 && p[i] < p[a];
    let y = passing(ds, p, a);
    assert forall|i: int| 0 <= i < a implies #[trigger] all(i) == (x(i) || below(i)) && !(x(i)
        && below(i)) by {
        assert(p[i] != p[a]);
    }
    lemma_tally_split(all, x, below, a as nat);
    let land = landing_below(ds, p, there);
    assert forall|i: int| 0 <= i < n implies #[trigger] land(i) == (below(i) || y(i)) && !(
    below(i) && y(i)) by {
        if i == a {
            assert(ds[i] == 0);
        }
    }
    lemma_tally_split(land, below, y, n);
    lemma_tally_cut(below, a as nat, n);
}

/// Rearranging fermions and then creating a particle on the site that a site is moved to gives
/// the same, signs and all, as creating the particle first and rearranging then.
pub proof fn rearrangements_carry_creation_operators(
    map: &LatticeSymmetryMap,
    state: u128,
    full: u128,
    site: int,
)
    requires
        map.wf(),
        map.is_sound(),
        map.spec_permutation().len() <= usize::MAX,
        map.spec_statistics() == ExchangeStatistics::Fermionic,
        state < map.capacity(),
        full < map.capacity(),
        0 <= site < map.spec_permutation().len(),
        radix::digits(state as nat, 2, map.spec_permutation().len())[site] == 0,
        radix::digits(full as nat, 2, map.spec_permutation().len()) == radix::digits(
            state as nat,
            2,
            map.spec_permutation().len(),
        ).update(site, 1),
    ensures
        ({
            let n = map.spec_permutation().len();
            let there = map.spec_permutation()[site] as int;
            &&& radix::digits(map.moved(full), 2, n) == radix::digits(
                map.moved(state),
                2,
                n,
            ).update(there, 1)
            &&& (map.flips(full) != fermion::odd_below(state as nat, site as nat)) == (
            map.flips(state) != fermion::odd_below(map.moved(state), there as nat))
        }),
{
    let p = map.spec_permutation();
    let n = p.len();
    let there = p[site] as int;
    let ds = radix::digits(state as nat, 2, n);
    let df = radix::digits(full as nat, 2, n);
    let dm = radix::digits(map.moved(state), 2, n);
    let dmf = radix::digits(map.moved(full), 2, n);
    lemma_plain_move(map, state);
    lemma_plain_move(map, full);
    radix::lemma_digits_valid(state as nat, 2, n);
    radix::lemma_digits_valid(map.moved(state), 2, n);
    lemma_moved_update(ds, dm, df, dmf, p, site);
    lemma_parities(ds, dm, p, site);
    assert(radix::digits(state as nat, 2, site as nat) =~= ds.subrange(0, site));
    assert(radix::digits(map.moved(state), 2, there as nat) =~= dm.subrange(0, there));
}

/// Nothing is added where the property ends.
proof fn lemma_tally_cut(holds: spec_fn(int) -> bool, from: nat, upto: nat)
    requires
        from <= upto,
        forall|i: int| from <= i < upto ==> !#[trigger] holds(i),
    ensures
        tally(holds, upto) == tally(holds, from),
    decreases upto,
{
    if from < upto {
        lemma_tally_cut(holds, from, (upto - 1) as nat);
        assert(!holds(upto - 1));
    }
}

} // verus!
