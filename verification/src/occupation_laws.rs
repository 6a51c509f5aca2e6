//! What a single occupation contributes to the number of a state.

use vstd::prelude::*;
use vstd::arithmetic::mul::*;
use crate::measure;
use crate::radix;

verus! {

proof fn lemma_digit_changed(ds: Seq<nat>, b: nat, i: int, d: nat)
    requires
        0 <= i < ds.len(),
    ensures
        radix::value(ds.update(i, d), b) + ds[i] * radix::place(b, i as nat) == radix::value(ds, b)
            + d * radix::place(b, i as nat),
    decreases ds.len(),
{
    let changed = ds.update(i, d);
    if i == 0 {
        assert(changed.drop_first() =~= ds.drop_first());
        assert(radix::place(b, 0) == 1);
        lemma_mul_basics(d as int);
        lemma_mul_basics(ds[0] as int);
    } else {
        let rest = ds.drop_first();
        assert(changed.drop_first() =~= rest.update(i - 1, d));
        lemma_digit_changed(rest, b, i - 1, d);
        let x = radix::value(rest.update(i - 1, d), b) as int;
        let y = radix::value(rest, b) as int;
        let p = radix::place(b, (i - 1) as nat) as int;
        let e = ds[i] as int;
        let f = d as int;
        let base = b as int;
        assert(rest[i - 1] == ds[i]);
        assert(base * x + e * (base * p) == base * y + f * (base * p)) by (nonlinear_arith)
            requires
                x + e * p == y + f * p,
        ;
    }
}

/// An occupation of a site counts as often as there are states of the sites before it.
pub proof fn occupations_count_by_their_site(
    state: u128,
    row: Seq<usize>,
    other: u128,
    changed: Seq<usize>,
    site: int,
    base: nat,
)
    requires
        measure::encodes_occupations(state, row, base),
        measure::encodes_occupations(other, changed, base),
        0 <= site < row.len(),
        changed == row.update(site, changed[site]),
    ensures
        other + row[site] * radix::place(base, site as nat) == state + changed[site]
            * radix::place(base, site as nat),
{
    let ds = measure::occupation_digits(row);
    assert(measure::occupation_digits(changed) =~= ds.update(site, changed[site] as nat));
    lemma_digit_changed(ds, base, site, changed[site] as nat);
}

/// A bit counts as often as the bits after it have states.
pub proof fn bits_count_by_their_column(
    state: u128,
    row: Seq<u8>,
    other: u128,
    changed: Seq<u8>,
    column: int,
)
    requires
        measure::encodes_bits(state, row),
        measure::encodes_bits(other, changed),
        0 <= column < row.len(),
        changed == row.update(column, changed[column]),
    ensures
        ({
            let states = radix::place(2, (row.len() - 1 - column) as nat);
            other + row[column] * states == state + changed[column] * states
        }),
{
    let ds = measure::bit_digits(row);
    let at = row.len() - 1 - column;
    assert(measure::bit_digits(changed) =~= ds.update(at, changed[column] as nat));
    lemma_digit_changed(ds, 2, at, changed[column] as nat);
}

/// States whose occupations agree but on one site differ by the difference there, counted as
/// often as there are states of the sites before it.
pub proof fn states_differ_by_their_occupations(
    state: u128,
    row: Seq<usize>,
    other: u128,
    changed: Seq<usize>,
    sites: nat,
    site: int,
    base: nat,
)
    requires
        base >= 2,
        measure::has_occupations(state, row, sites, base),
        measure::has_occupations(other, changed, sites, base),
        0 <= site < sites,
        changed == row.update(site, changed[site]),
    ensures
        other + row[site] * radix::place(base, site as nat) == state + changed[site]
            * radix::place(base, site as nat),
{
    measure::occupations_round_trip(state, row, sites, base);
    measure::occupations_round_trip(other, changed, sites, base);
    occupations_count_by_their_site(state, row, other, changed, site, base);
}

/// States whose bits agree but in one column differ by the difference there, counted as often as
/// the bits after it have states.
pub proof fn states_differ_by_their_bits(
    state: u128,
    row: Seq<u8>,
    other: u128,
    changed: Seq<u8>,
    sites: nat,
    column: int,
)
    requires
        measure::has_bits(state, row, sites),
        measure::has_bits(other, changed, sites),
        0 <= column < sites,
        changed == row.update(column, changed[column]),
    ensures
        ({
            let states = radix::place(2, (sites - 1 - column) as nat);
            other + row[column] * states == state + changed[column] * states
        }),
{
    measure::bits_round_trip(state, row, sites);
    measure::bits_round_trip(other, changed, sites);
    bits_count_by_their_column(state, row, other, changed, column);
}

} // verus!
