//! Translations of fermions carry creation operators along.

use vstd::prelude::*;
use vstd::arithmetic::div_mod::*;
use crate::fermion;
use crate::lattice;
use crate::radix;
use crate::symmetry;

verus! {

/// The number of particles on the sites from one up to another.
pub open spec fn between(occupations: Seq<nat>, from: int, to: int) -> nat {
    radix::total(occupations.subrange(from, to))
}

proof fn lemma_between(ds: Seq<nat>, a: int, b: int, c: int)
    requires
        0 <= a <= b <= c <= ds.len(),
    ensures
        between(ds, a, c) == between(ds, a, b) + between(ds, b, c),
{
    assert(ds.subrange(a, c) =~= ds.subrange(a, b) + ds.subrange(b, c));
    radix::lemma_total_concat(ds.subrange(a, b), ds.subrange(b, c));
}

proof fn lemma_updated(ds: Seq<nat>, at: int, from: int, to: int)
    requires
        0 <= from <= to <= ds.len(),
        0 <= at < ds.len(),
        ds[at] == 0,
    ensures
        between(ds.update(at, 1), from, to) == between(ds, from, to) + (if from <= at < to {
            1int
        } else {
            0
        }),
{
    let part = ds.subrange(from, to);
    if from <= at < to {
        assert(ds.update(at, 1).subrange(from, to) =~= part.update(at - from, 1));
        radix::lemma_total_update(part, at - from, 1);
    } else {
        assert(ds.update(at, 1).subrange(from, to) =~= part);
    }
}

proof fn lemma_below(s: nat, site: nat, n: nat)
    requires
        site <= n,
    ensures
        radix::digit_sum(s, 2, site) == between(radix::digits(s, 2, n), 0, site as int),
{
    assert(radix::digits(s, 2, site) =~= radix::digits(s, 2, n).subrange(0, site as int));
}

/// The particles below the new site of a site that stays on its side of the end of the ring.
proof fn lemma_passed_inside(ds: Seq<nat>, t: nat, a: int)
    requires
        t < ds.len(),
        0 <= a < ds.len() - t,
    ensures
        between(lattice::rotated(ds, t), 0, a + t) == between(ds, ds.len() - t, ds.len() as int)
            + between(ds, 0, a),
{
    let dm = lattice::rotated(ds, t);
    lattice::lemma_rotated_index(ds, t);
    lemma_between(dm, 0, t as int, a + t);
    assert(dm.subrange(0, t as int) =~= ds.subrange(ds.len() - t, ds.len() as int));
    assert(dm.subrange(t as int, a + t) =~= ds.subrange(0, a));
}

/// The particles below the new site of a site that passes the end of the ring.
proof fn lemma_passed_around(ds: Seq<nat>, t: nat, a: int)
    requires
        t < ds.len(),
        ds.len() - t <= a < ds.len(),
    ensures
        between(lattice::rotated(ds, t), 0, a + t - ds.len()) + between(ds, 0, ds.len() - t)
            == between(ds, 0, a),
{
    let dm = lattice::rotated(ds, t);
    lattice::lemma_rotated_index(ds, t);
    lemma_between(ds, 0, ds.len() - t, a);
    assert(dm.subrange(0, a + t - ds.len()) =~= ds.subrange(ds.len() - t, a));
}

/// Where a site is after a translation.
proof fn lemma_new_site(n: int, t: int, a: int)
    requires
        0 <= t < n,
        0 <= a < n,
    ensures
        (a + t) % n == (if a + t < n {
            a + t
        } else {
            a + t - n
        }),
{
    if a + t < n {
        lemma_small_mod((a + t) as nat, n as nat);
    } else {
        lemma_fundamental_div_mod_converse(a + t, n, 1, a + t - n);
    }
}

/// A change on one site moves along with the site.
proof fn lemma_rotated_update(ds: Seq<nat>, t: nat, a: int)
    requires
        t < ds.len(),
        0 <= a < ds.len(),
    ensures
        lattice::rotated(ds.update(a, 1), t) == lattice::rotated(ds, t).update(
            (a + t) % (ds.len() as int),
            1,
        ),
        lattice::rotated(ds, t)[(a + t) % (ds.len() as int)] == ds[a],
{
    lemma_new_site(ds.len() as int, t as int, a);
    lattice::lemma_rotated_index(ds, t);
    lattice::lemma_rotated_index(ds.update(a, 1), t);
    assert(lattice::rotated(ds.update(a, 1), t) =~= lattice::rotated(ds, t).update(
        (a + t) % (ds.len() as int),
        1,
    ));
}

/// The parities of the exchanges and of the particles below.
proof fn lemma_parities(ds: Seq<nat>, t: nat, a: int)
    requires
        t < ds.len(),
        0 <= a < ds.len(),
        ds[a] == 0,
    ensures
        ({
            let n = ds.len() as int;
            let w = between(ds, n - t, n) as int;
            let r = between(ds, 0, n - t) as int;
            let more = ds.update(a, 1);
            let w1 = between(more, n - t, n) as int;
            let r1 = between(more, 0, n - t) as int;
            (w1 * r1 + between(ds, 0, a)) % 2 == (w * r + between(
                lattice::rotated(ds, t),
                0,
                (a + t) % n,
            )) % 2
        }),
{
    let n = ds.len() as int;
    let cut = n - t;
    let w = between(ds, cut, n) as int;
    let r = between(ds, 0, cut) as int;
    lemma_new_site(n, t as int, a);
    lemma_updated(ds, a, cut, n);
    lemma_updated(ds, a, 0, cut);
    if a < cut {
        lemma_passed_inside(ds, t, a);
        assert(w * (r + 1) == w * r + w) by (nonlinear_arith);
    } else {
        lemma_passed_around(ds, t, a);
        assert((w + 1) * r == w * r + r) by (nonlinear_arith);
    }
}

/// Translating a ring of fermions and then creating a particle on the site that a site is moved
/// to gives the same, signs and all, as creating the particle first and translating then: the
/// states agree, and so does the product of the sign of the translation and the sign with which
/// the particle is created.
pub proof fn translations_carry_creation_operators(
    state: u128,
    filled: u128,
    sites: usize,
    shift: usize,
    site: usize,
)
    requires
        0 < sites <= 128,
        site < sites,
        shift < sites,
        state < radix::place(2, sites as nat),
        radix::digits(state as nat, 2, sites as nat)[site as int] == 0,
        filled < radix::place(2, sites as nat),
        radix::digits(filled as nat, 2, sites as nat) == radix::digits(
            state as nat,
            2,
            sites as nat,
        ).update(site as int, 1),
    ensures
        ({
            let n = sites as nat;
            let moved = lattice::rotated_state(state as nat, shift as nat, n, 2);
            let moved_filled = lattice::rotated_state(filled as nat, shift as nat, n, 2);
            let there = (site + shift) % (sites as int);
            let ring = symmetry::fermion_symmetry(sites, None);
            &&& radix::digits(moved, 2, n)[there] == 0
            &&& radix::digits(moved_filled, 2, n) == radix::digits(moved, 2, n).update(there, 1)
            &&& (ring.exchanges_oddly(filled as nat, shift as nat) != fermion::odd_below(
                state as nat,
                site as nat,
            )) == (ring.exchanges_oddly(state as nat, shift as nat) != fermion::odd_below(
                moved,
                there as nat,
            ))
        }),
{
    let n = sites as nat;
    let t = shift as nat;
    let s = state as nat;
    let f = filled as nat;
    let ds = radix::digits(s, 2, n);
    let df = radix::digits(f, 2, n);
    let moved = lattice::rotated_state(s, t, n, 2);
    lattice::lemma_rotated_state_digits(s, t, n, 2);
    lattice::lemma_rotated_state_digits(f, t, n, 2);
    lemma_rotated_update(ds, t, site as int);
    lemma_parities(ds, t, site as int);
    let there = (site + shift) % (sites as int);
    lemma_new_site(sites as int, shift as int, site as int);
    lemma_below(s, site as nat, n);
    lemma_below(moved, there as nat, n);
    lemma_between(ds, 0, n - t, n as int);
    lemma_between(df, 0, n - t, n as int);
    assert(ds.subrange(0, n as int) =~= ds);
    assert(df.subrange(0, n as int) =~= df);
}

} // verus!
