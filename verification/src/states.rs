//! Enumeration of encoded many-body states and the inverse lookups.

use vstd::prelude::*;
use vstd::arithmetic::div_mod::*;
use vstd::arithmetic::mul::*;
use crate::error::{QmbedError, Result};
use crate::radix;

verus! {

/// Strictly increasing.
pub open spec fn ascending(states: Seq<u128>) -> bool {
    forall|i: int, j: int| 0 <= i < j < states.len() ==> states[i] < states[j]
}

/// The states of `sites` digits in base `base` whose digits add up to `total`,
/// or all of them without a total.
pub open spec fn in_sector(state: u128, base: nat, sites: nat, total: Option<usize>) -> bool {
    &&& state < radix::place(base, sites)
    &&& total matches Some(sum) ==> radix::digit_sum(state as nat, base, sites) == sum
}

/// The list is the sector in increasing order.
pub open spec fn lists_sector(
    states: Seq<u128>,
    base: nat,
    sites: nat,
    total: Option<usize>,
) -> bool {
    &&& ascending(states)
    &&& forall|state: u128|
        #![trigger states.contains(state)]
        #![trigger in_sector(state, base, sites, total)]
        states.contains(state) <==> in_sector(state, base, sites, total)
}

/// Appends the states `prefix + r`, with `r` running upwards over the numbers of
/// `sites` digits that add up to `remaining`.
fn enumerate_digit_sums(
    sites: usize,
    states_per_site: usize,
    places: &Vec<u128>,
    remaining: usize,
    prefix: u128,
    output: &mut Vec<u128>,
)
    requires
        states_per_site > 0,
        sites <= places.len(),
        forall|i: int| 0 <= i < places.len() ==> #[trigger] places[i] == radix::place(
            states_per_site as nat,
            i as nat,
        ),
        prefix + radix::place(states_per_site as nat, sites as nat) <= u128::MAX + 1,
        ascending(old(output)@),
        forall|i: int| 0 <= i < old(output).len() ==> #[trigger] old(output)[i] < prefix,
    ensures
        ascending(final(output)@),
        forall|state: u128| #[trigger]
            final(output)@.contains(state) <==> old(output)@.contains(state) || (prefix <= state
                < prefix + radix::place(states_per_site as nat, sites as nat) && radix::digit_sum(
                (state - prefix) as nat,
                states_per_site as nat,
                sites as nat,
            ) == remaining),
    decreases sites,
{
    let ghost base = states_per_site as nat;
    let ghost start = output@;
    if sites == 0 {
        assert(radix::digits(0, base, 0) =~= Seq::<nat>::empty());
        if remaining == 0 {
            output.push(prefix);
            proof {
                lemma_contains_push(start, prefix);
            }
        }
        return;
    }
    let place_value: u128 = places[sites - 1];
    let ghost rest = (sites - 1) as nat;
    let maximum_tail: usize = match (sites - 1).checked_mul(states_per_site - 1) {
        Some(product) => product,
        None => usize::MAX,
    };
    let mut digit: usize = 0;
    let mut offset: u128 = prefix;
    proof {
        radix::lemma_place_positive(base, rest);
        lemma_mul_basics(radix::place(base, rest) as int);
    }
    while digit < states_per_site
        invariant
            0 < sites,
            sites <= places.len(),
            0 < states_per_site,
            base == states_per_site as nat,
            rest == (sites - 1) as nat,
            place_value == radix::place(base, rest),
            place_value > 0,
            digit <= states_per_site,
            forall|i: int| 0 <= i < places.len() ==> #[trigger] places[i] == radix::place(base, i as nat),
            prefix + radix::place(base, sites as nat) <= u128::MAX + 1,
            radix::place(base, sites as nat) == base * radix::place(base, rest),
            digit < states_per_site ==> offset == prefix + radix::place(base, rest) * digit,
            maximum_tail == (if rest * (states_per_site - 1) > usize::MAX {
                usize::MAX as int
            } else {
                rest * (states_per_site - 1)
            }),
            ascending(output@),
            forall|state: u128| #[trigger]
                output@.contains(state) <==> start.contains(state) || (prefix <= state < prefix
                    + radix::place(base, rest) * digit && radix::digit_sum(
                    (state - prefix) as nat,
                    base,
                    sites as nat,
                ) == remaining),
            forall|i: int| 0 <= i < start.len() ==> #[trigger] start[i] < prefix,
        decreases states_per_site - digit,
    {
        let ghost before = output@;
        let ghost lower = radix::place(base, rest) * digit;
        proof {
            lemma_step_fits(radix::place(base, rest), digit as nat, base);
            assert forall|i: int| 0 <= i < output.len() implies #[trigger] output[i] < offset by {
                assert(output@.contains(output@[i]));
                if start.contains(output@[i]) {
                    let j = choose|j: int| 0 <= j < start.len() && start[j] == output@[i];
                    assert(start[j] < prefix);
                }
            }
        }
        let reachable: bool = digit <= remaining && remaining - digit <= maximum_tail;
        if reachable {
            enumerate_digit_sums(
                sites - 1,
                states_per_site,
                places,
                remaining - digit,
                offset,
                output,
            );
        }
        proof {
            assert forall|state: u128| #[trigger] output@.contains(state) <==> start.contains(state)
                || (prefix <= state < prefix + radix::place(base, rest) * (digit + 1) && radix::digit_sum(
                (state - prefix) as nat,
                base,
                sites as nat,
            ) == remaining) by {
                lemma_mul_is_distributive_add(radix::place(base, rest) as int, digit as int, 1);
                assert(before.contains(state) <==> start.contains(state) || (prefix <= state
                    < prefix + lower && radix::digit_sum((state - prefix) as nat, base, sites as nat)
                    == remaining));
                if offset <= state < offset + radix::place(base, rest) {
                    let low = (state - offset) as nat;
                    radix::lemma_digit_sum_top(low, digit as nat, base, rest);
                    assert(state - prefix == low + radix::place(base, rest) * digit);
                    radix::lemma_digits_valid(low, base, rest);
                    radix::lemma_total_bound(radix::digits(low, base, rest), base);
                    assert(rest + 1 == sites as nat);
                }
            }
        }
        digit = digit + 1;
        if digit < states_per_site {
            proof {
                lemma_step_fits(radix::place(base, rest), digit as nat, base);
                lemma_mul_is_distributive_add(radix::place(base, rest) as int, (digit - 1) as int, 1);
            }
            offset = offset + place_value;
        }
    }
    proof {
        lemma_mul_is_commutative(base as int, radix::place(base, rest) as int);
    }
}

pub proof fn lemma_contains_push(list: Seq<u128>, item: u128)
    ensures
        forall|x: u128| #[trigger] list.push(item).contains(x) <==> list.contains(x) || x == item,
{
    assert forall|x: u128| #[trigger] list.push(item).contains(x) <==> list.contains(x) || x
        == item by {
        if list.contains(x) {
            let j = choose|j: int| 0 <= j < list.len() && list[j] == x;
            assert(list.push(item)[j] == x);
        }
        assert(list.push(item)[list.len() as int] == item);
        if list.push(item).contains(x) {
            let j = choose|j: int| 0 <= j < list.push(item).len() && list.push(item)[j] == x;
            if j < list.len() {
                assert(list[j] == x);
            }
        }
    }
}

proof fn lemma_step_fits(p: nat, d: nat, b: nat)
    requires
        d < b,
    ensures
        p * d + p <= b * p,
        0 <= p * d,
{
    assert(p * d + p <= b * p) by (nonlinear_arith)
        requires
            d + 1 <= b,
            p >= 0,
    ;
    assert(0 <= p * d) by (nonlinear_arith);
}


/// The powers `base^0, ..., base^(sites - 1)`, or nothing when one exceeds `u128`.
pub fn place_values(base: u128, sites: usize) -> (places: Option<Vec<u128>>)
    requires
        base > 0,
    ensures
        places is Some <==> (sites == 0 || radix::place(base as nat, (sites - 1) as nat)
            <= u128::MAX),
        places matches Some(list) ==> list.len() == sites && forall|i: int|
            0 <= i < sites ==> #[trigger] list[i] == radix::place(base as nat, i as nat),
{
    let mut places: Vec<u128> = Vec::new();
    if sites == 0 {
        return Some(places);
    }
    let mut power: u128 = 1;
    places.push(power);
    while places.len() < sites
        invariant
            base > 0,
            1 <= places.len() <= sites,
            power == radix::place(base as nat, (places.len() - 1) as nat),
            forall|i: int| 0 <= i < places.len() ==> #[trigger] places[i] == radix::place(
                base as nat,
                i as nat,
            ),
        decreases sites - places.len(),
    {
        proof {
            let reached = places.len() as nat;
            assert(radix::place(base as nat, reached) == base * power);
            radix::lemma_place_monotone(base as nat, reached, (sites - 1) as nat);
        }
        match base.checked_mul(power) {
            Some(next) => {
                power = next;
                places.push(power);
            },
            None => {
                return None;
            },
        }
    }
    Some(places)
}

/// The numbers below `limit` in increasing order.
fn numbers_below(limit: u128) -> (states: Vec<u128>)
    ensures
        ascending(states@),
        forall|state: u128| #[trigger] states@.contains(state) <==> state < limit,
{
    let mut states: Vec<u128> = Vec::new();
    let mut state: u128 = 0;
    while state < limit
        invariant
            state <= limit,
            states@.len() == state,
            forall|i: int| 0 <= i < states@.len() ==> #[trigger] states@[i] == i,
        decreases limit - state,
    {
        states.push(state);
        state = state + 1;
    }
    assert forall|x: u128| #[trigger] states@.contains(x) <==> x < limit by {
        if x < limit {
            assert(states@[x as int] == x);
        }
    }
    states
}

/// Every bit pattern of `sites` orbitals with the given number of ones, or every
/// bit pattern, in increasing order.
pub fn fixed_weight_states(sites: usize, particles: Option<usize>) -> (result: Result<Vec<u128>>)
    ensures
        match result {
            Ok(states) => {
                &&& sites <= 128
                &&& particles matches Some(count) ==> count <= sites
                &&& particles is None ==> sites < 128
                &&& lists_sector(states@, 2, sites as nat, particles)
            },
            Err(QmbedError::InvalidSector(_)) => sites <= 128 && (particles matches Some(
                count,
            ) && count > sites),
            Err(QmbedError::UnsupportedBackend(_)) => sites > 128 || (particles is None && sites
                == 128),
            Err(_) => false,
        },
{
    if sites > 128 {
        return Err(
            QmbedError::UnsupportedBackend(
                "the initial u128 state backend supports at most 128 orbitals".to_string(),
            ),
        );
    }
    let limit: u128 = if sites < 128 {
        1u128 << (sites as u32)
    } else {
        0
    };
    proof {
        lemma_power_of_two(sites);
    }
    match particles {
        None => {
            if sites == 128 {
                return Err(
                    QmbedError::UnsupportedBackend(
                        "enumerating the unconstrained 128-site Hilbert space is infeasible".to_string(),
                    ),
                );
            }
            Ok(numbers_below(limit))
        },
        Some(count) => {
            if count > sites {
                return Err(
                    QmbedError::InvalidSector("particle count exceeds site count".to_string()),
                );
            }
            let mut places: Vec<u128> = Vec::new();
            let mut site: usize = 0;
            while site < sites
                invariant
                    site <= sites <= 128,
                    places.len() == site,
                    forall|i: int| 0 <= i < site ==> #[trigger] places[i] == radix::place(
                        2,
                        i as nat,
                    ),
                decreases sites - site,
            {
                proof {
                    lemma_power_of_two(site);
                }
                places.push(1u128 << (site as u32));
                site = site + 1;
            }
            let mut states: Vec<u128> = Vec::new();
            enumerate_digit_sums(sites, 2, &places, count, 0, &mut states);
            assert forall|state: u128|
                #![trigger states@.contains(state)]
                states@.contains(state) <==> in_sector(state, 2, sites as nat, particles) by {}
            Ok(states)
        },
    }
}

/// Shifting one upwards gives the powers of two.
pub proof fn lemma_power_of_two(n: usize)
    requires
        n <= 128,
    ensures
        n < 128 ==> (1u128 << (n as u32)) == radix::place(2, n as nat),
        n == 128 ==> radix::place(2, n as nat) == u128::MAX + 1,
        radix::place(2, n as nat) <= u128::MAX + 1,
    decreases n,
{
    if n == 0 {
        assert(1u128 << 0u32 == 1u128) by (bit_vector);
    } else {
        lemma_power_of_two((n - 1) as usize);
        let m = (n - 1) as u32;
        assert(m < 127 ==> (1u128 << ((m + 1) as u32)) == 2 * (1u128 << m)) by (bit_vector);
        assert(m < 127 ==> (1u128 << m) <= 0x4000_0000_0000_0000_0000_0000_0000_0000u128)
            by (bit_vector);
        assert(m == 127 ==> (1u128 << m) == 0x8000_0000_0000_0000_0000_0000_0000_0000u128)
            by (bit_vector);
        assert(radix::place(2, n as nat) == 2 * radix::place(2, m as nat));
    }
}

/// Every state of `sites` digits below `states_per_site` with the given digit
/// total, or every such state, in increasing order.
pub fn fixed_digit_sum_states(
    sites: usize,
    states_per_site: usize,
    total: Option<usize>,
) -> (result: Result<Vec<u128>>)
    ensures
        match result {
            Ok(states) => {
                &&& digit_sum_sector_exists(sites, states_per_site, total)
                &&& digit_sum_sector_fits(sites, states_per_site)
                &&& lists_sector(states@, states_per_site as nat, sites as nat, total)
            },
            Err(QmbedError::InvalidSector(_)) => !digit_sum_sector_exists(
                sites,
                states_per_site,
                total,
            ),
            Err(QmbedError::UnsupportedBackend(_)) => digit_sum_sector_exists(
                sites,
                states_per_site,
                total,
            ) && !digit_sum_sector_fits(sites, states_per_site),
            Err(_) => false,
        },
{
    if sites == 0 || states_per_site == 0 {
        return Err(
            QmbedError::InvalidSector("sites and local state count must be positive".to_string()),
        );
    }
    let capacity: usize = match sites.checked_mul(states_per_site - 1) {
        Some(product) => product,
        None => usize::MAX,
    };
    if let Some(sum) = total {
        if sum > capacity {
            return Err(
                QmbedError::InvalidSector(
                    "requested occupation exceeds the local spin capacity".to_string(),
                ),
            );
        }
    }
    let ghost base = states_per_site as nat;
    if sites > u32::MAX as usize {
        return Err(QmbedError::UnsupportedBackend("site count is too large".to_string()));
    }
    if states_per_site == 1 {
        proof {
            radix::lemma_place_one(sites as nat);
            radix::lemma_digit_sum_zero(1, sites as nat);
            assert(sites * 0 == 0);
        }
        let states: Vec<u128> = numbers_below(1);
        assert forall|state: u128|
            #![trigger states@.contains(state)]
            states@.contains(state) <==> in_sector(state, 1, sites as nat, total) by {}
        return Ok(states);
    }
    proof {
        radix::lemma_place_monotone(base, (sites - 1) as nat, sites as nat);
    }
    let places: Vec<u128> = match place_values(states_per_site as u128, sites) {
        Some(places) => places,
        None => {
            return Err(
                QmbedError::UnsupportedBackend("mixed-radix state encoding overflow".to_string()),
            );
        },
    };
    let limit: u128 = match (states_per_site as u128).checked_mul(places[sites - 1]) {
        Some(limit) => limit,
        None => {
            return Err(
                QmbedError::UnsupportedBackend("mixed-radix state encoding overflow".to_string()),
            );
        },
    };
    match total {
        None => Ok(numbers_below(limit)),
        Some(sum) => {
            let mut states: Vec<u128> = Vec::new();
            enumerate_digit_sums(sites, states_per_site, &places, sum, 0, &mut states);
            assert forall|state: u128|
                #![trigger states@.contains(state)]
                states@.contains(state) <==> in_sector(state, base, sites as nat, total) by {}
            Ok(states)
        },
    }
}

/// There are sites and local states, and the digit total is not out of reach.
pub open spec fn digit_sum_sector_exists(
    sites: usize,
    states_per_site: usize,
    total: Option<usize>,
) -> bool {
    &&& sites > 0
    &&& states_per_site > 0
    &&& total matches Some(sum) ==> sum <= sites * (states_per_site - 1)
}

/// All states of the lattice have a `u128` encoding below the largest `u128`.
pub open spec fn digit_sum_sector_fits(sites: usize, states_per_site: usize) -> bool {
    sites <= u32::MAX && radix::place(states_per_site as nat, sites as nat) <= u128::MAX
}

/// The position of a state in an increasing list.
pub fn state_index(states: &Vec<u128>, state: u128) -> (result: Result<usize>)
    requires
        ascending(states@),
    ensures
        match result {
            Ok(index) => index < states.len() && states[index as int] == state,
            Err(error) => error is StateNotInBasis && !states@.contains(state),
        },
{
    let mut low: usize = 0;
    let mut high: usize = states.len();
    while low < high
        invariant
            low <= high <= states.len(),
            ascending(states@),
            forall|i: int| 0 <= i < low ==> #[trigger] states[i] < state,
            forall|i: int| high <= i < states.len() ==> #[trigger] states[i] > state,
        decreases high - low,
    {
        let middle: usize = low + (high - low) / 2;
        if states[middle] == state {
            return Ok(middle);
        }
        if states[middle] < state {
            low = middle + 1;
        } else {
            high = middle;
        }
    }
    Err(QmbedError::StateNotInBasis)
}

/// The position of a state in the list of all numbers below its length.
pub fn direct_state_index(states: &Vec<u128>, state: u128) -> (result: Result<usize>)
    ensures
        match result {
            Ok(index) => index < states.len() && index == state,
            Err(error) => error is StateNotInBasis && state >= states.len(),
        },
{
    if state < states.len() as u128 {
        Ok(state as usize)
    } else {
        Err(QmbedError::StateNotInBasis)
    }
}

/// An increasing list of exactly the numbers below a limit holds each in its own place.
pub proof fn lemma_full_list(list: Seq<u128>, limit: nat)
    requires
        ascending(list),
        forall|x: u128| #[trigger] list.contains(x) <==> x < limit,
        limit <= u128::MAX,
    ensures
        list.len() == limit,
        forall|i: int| 0 <= i < list.len() ==> #[trigger] list[i] == i,
{
    assert forall|i: int| 0 <= i < list.len() implies #[trigger] list[i] == i by {
        lemma_full_entry(list, limit, i);
    }
    if list.len() < limit {
        let x = list.len() as u128;
        assert(list.contains(x));
        let j = choose|j: int| 0 <= j < list.len() && list[j] == x;
        assert(list[j] == j);
    }
    if list.len() > limit {
        assert(list.contains(list[limit as int]));
    }
}

proof fn lemma_full_entry(list: Seq<u128>, limit: nat, i: int)
    requires
        ascending(list),
        forall|x: u128| #[trigger] list.contains(x) <==> x < limit,
        0 <= i < list.len(),
    ensures
        list[i] == i,
    decreases i,
{
    if i > 0 {
        lemma_full_entry(list, limit, i - 1);
        assert(list[i - 1] < list[i]);
    }
    assert(list.contains(list[i]));
    if list[i] > i {
        assert(list.contains(i as u128));
        let j = choose|j: int| 0 <= j < list.len() && list[j] == i;
        if j < i {
            lemma_full_entry(list, limit, j);
        } else if j > i {
            assert(list[i] < list[j]);
        }
    }
}

/// The union of two increasing lists, increasing again.
pub fn merge_ascending(left: &Vec<u128>, right: &Vec<u128>) -> (merged: Vec<u128>)
    requires
        ascending(left@),
        ascending(right@),
    ensures
        ascending(merged@),
        forall|x: u128| #[trigger]
            merged@.contains(x) <==> left@.contains(x) || right@.contains(x),
{
    let mut merged: Vec<u128> = Vec::new();
    let mut i: usize = 0;
    let mut j: usize = 0;
    proof {
        assert(left@.subrange(0, 0) =~= Seq::<u128>::empty());
        assert(right@.subrange(0, 0) =~= Seq::<u128>::empty());
    }
    while i < left.len() || j < right.len()
        invariant
            i <= left.len(),
            j <= right.len(),
            ascending(left@),
            ascending(right@),
            ascending(merged@),
            forall|x: u128| #[trigger]
                merged@.contains(x) <==> left@.subrange(0, i as int).contains(x)
                    || right@.subrange(0, j as int).contains(x),
            forall|k: int, l: int|
                0 <= k < merged.len() && i <= l < left.len() ==> #[trigger] merged[k]
                    < #[trigger] left[l],
            forall|k: int, l: int|
                0 <= k < merged.len() && j <= l < right.len() ==> #[trigger] merged[k]
                    < #[trigger] right[l],
        decreases left.len() - i + right.len() - j,
    {
        let take_left: bool = i < left.len() && (j >= right.len() || left[i] <= right[j]);
        let take_right: bool = j < right.len() && (i >= left.len() || right[j] <= left[i]);
        let item: u128 = if take_left {
            left[i]
        } else {
            right[j]
        };
        let ghost before = merged@;
        let ghost li = i as int;
        let ghost rj = j as int;
        merged.push(item);
        if take_left {
            i = i + 1;
        }
        if take_right {
            j = j + 1;
        }
        proof {
            lemma_contains_push(before, item);
            if take_left {
                assert(left@.subrange(0, li + 1) =~= left@.subrange(0, li).push(item));
                lemma_contains_push(left@.subrange(0, li), item);
            }
            if take_right {
                assert(right@.subrange(0, rj + 1) =~= right@.subrange(0, rj).push(item));
                lemma_contains_push(right@.subrange(0, rj), item);
            }
        }
    }
    proof {
        assert(left@.subrange(0, i as int) =~= left@);
        assert(right@.subrange(0, j as int) =~= right@);
    }
    merged
}

} // verus!
