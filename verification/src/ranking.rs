//! Binomial coefficients and the combinatorial rank of fixed-weight states.

use vstd::prelude::*;
use vstd::arithmetic::mul::*;
use vstd::arithmetic::div_mod::*;
use crate::error::{QmbedError, Result};
use crate::radix;
use crate::states;

verus! {

/// The number of ways to choose `k` of `n` items, by Pascal's rule.
pub open spec fn choose_count(n: nat, k: nat) -> nat
    decreases n,
{
    if k == 0 {
        1
    } else if n == 0 {
        0
    } else {
        choose_count((n - 1) as nat, k) + choose_count((n - 1) as nat, (k - 1) as nat)
    }
}

/// The largest machine value not above `x`.
pub open spec fn saturated(x: nat) -> nat {
    if x > usize::MAX {
        usize::MAX as nat
    } else {
        x
    }
}

/// The number of matter configurations with `from` to below `to` excitations.
pub open spec fn matter_count(sites: nat, from: nat, to: nat) -> nat
    decreases to,
{
    if to <= from {
        0
    } else {
        matter_count(sites, from, (to - 1) as nat) + choose_count(sites, (to - 1) as nat)
    }
}

proof fn lemma_matter_count(sites: nat, from: nat, middle: nat, to: nat)
    requires
        middle <= to,
    ensures
        matter_count(sites, from, middle) <= matter_count(sites, from, to),
    decreases to,
{
    if middle < to {
        lemma_matter_count(sites, from, middle, (to - 1) as nat);
    }
}

/// The least number of matter excitations that leaves no more than the photon cutoff.
pub open spec fn least_matter(total: usize, photon_cutoff: Option<usize>) -> nat {
    match photon_cutoff {
        None => 0,
        Some(cutoff) => if total <= cutoff {
            0
        } else {
            (total - cutoff) as nat
        },
    }
}

/// One more than the greatest number of matter excitations.
pub open spec fn matter_bound(sites: usize, total: usize) -> nat {
    (if sites <= total {
        sites + 1
    } else {
        total + 1
    }) as nat
}

/// The dimension of two-level systems coupled to one photon mode: the matter
/// configurations that a fixed number of excitations leaves room for, each with the
/// photons that are left, or all configurations with all photons up to the cutoff.
pub open spec fn photon_dimension(
    sites: usize,
    total_excitations: Option<usize>,
    photon_cutoff: Option<usize>,
) -> Option<nat> {
    match total_excitations {
        Some(total) => Some(
            matter_count(
                sites as nat,
                least_matter(total, photon_cutoff),
                matter_bound(sites, total),
            ),
        ),
        None => match photon_cutoff {
            Some(cutoff) => Some(radix::place(2, sites as nat) * ((cutoff + 1) as nat)),
            None => None,
        },
    }
}

/// The dimension of two-level systems coupled to one photon mode.
pub fn photon_hspace_dim(
    sites: usize,
    total_excitations: Option<usize>,
    photon_cutoff: Option<usize>,
) -> (result: Result<usize>)
    ensures
        match photon_dimension(sites, total_excitations, photon_cutoff) {
            Some(count) => match result {
                Ok(dimension) => dimension == count,
                Err(error) => error is UnsupportedBackend && count > usize::MAX,
            },
            None => result matches Err(error) && error is InvalidSector,
        },
{
    match total_excitations {
        Some(total) => {
            let from: usize = match photon_cutoff {
                None => 0,
                Some(cutoff) => if total <= cutoff {
                    0
                } else {
                    total - cutoff
                },
            };
            let last: usize = if sites <= total {
                sites
            } else {
                total
            };
            let ghost bound = matter_bound(sites, total);
            if from > last {
                assert(matter_count(sites as nat, from as nat, bound) == 0);
                return Ok(0);
            }
            let mut sum: usize = 0;
            let mut matter: usize = from;
            let mut more: bool = true;
            while more
                invariant
                    total_excitations == Some(total),
                    from == least_matter(total, photon_cutoff),
                    bound == matter_bound(sites, total),
                    from <= matter <= last,
                    bound == last + 1,
                    more ==> sum == matter_count(sites as nat, from as nat, matter as nat),
                    !more ==> sum == matter_count(sites as nat, from as nat, bound),
                decreases last - matter, (if more { 1int } else { 0int }),
            {
                proof {
                    lemma_matter_count(
                        sites as nat,
                        from as nat,
                        (matter + 1) as nat,
                        bound,
                    );
                }
                let next: Option<usize> = match binomial(sites, matter) {
                    Some(count) => sum.checked_add(count),
                    None => None,
                };
                match next {
                    Some(larger) => {
                        sum = larger;
                    },
                    None => {
                        return Err(
                            QmbedError::UnsupportedBackend("photon dimension overflow".to_string()),
                        );
                    },
                }
                if matter == last {
                    more = false;
                } else {
                    matter = matter + 1;
                }
            }
            Ok(sum)
        },
        None => match photon_cutoff {
            None => Err(
                QmbedError::InvalidSector(
                    "either total excitation or photon cutoff must be finite".to_string(),
                ),
            ),
            Some(cutoff) => {
                let mut matter: usize = 1;
                let mut site: usize = 0;
                while site < sites
                    invariant
                        total_excitations is None,
                        photon_cutoff == Some(cutoff),
                        site <= sites,
                        matter == radix::place(2, site as nat),
                    decreases sites - site,
                {
                    match matter.checked_mul(2) {
                        Some(doubled) => {
                            matter = doubled;
                        },
                        None => {
                            proof {
                                radix::lemma_place_monotone(2, (site + 1) as nat, sites as nat);
                                let all = radix::place(2, sites as nat) as int;
                                let count = cutoff + 1;
                                assert(all * count >= all) by (nonlinear_arith)
                                    requires
                                        all >= 0,
                                        count >= 1,
                                ;
                            }
                            return Err(
                                QmbedError::UnsupportedBackend(
                                    "photon dimension overflow".to_string(),
                                ),
                            );
                        },
                    }
                    site = site + 1;
                }
                proof {
                    radix::lemma_place_positive(2, sites as nat);
                    let all = radix::place(2, sites as nat) as int;
                    let count = cutoff + 1;
                    assert(all * count >= count) by (nonlinear_arith)
                        requires
                            all >= 1,
                            count >= 0,
                    ;
                }
                let whole: Option<usize> = match cutoff.checked_add(1) {
                    Some(levels) => matter.checked_mul(levels),
                    None => None,
                };
                match whole {
                    Some(dimension) => Ok(dimension),
                    None => Err(
                        QmbedError::UnsupportedBackend("photon dimension overflow".to_string()),
                    ),
                }
            },
        },
    }
}

/// The binomial coefficient by the product formula, where it is a machine integer.
pub fn binomial(n: usize, k: usize) -> (result: Option<usize>)
    ensures
        match result {
            Some(count) => count == choose_count(n as nat, k as nat),
            None => choose_count(n as nat, k as nat) > usize::MAX,
        },
{
    if k > n {
        proof {
            lemma_choose_above(n as nat, k as nat);
        }
        return Some(0);
    }
    let factors: usize = if k < n - k {
        k
    } else {
        n - k
    };
    proof {
        lemma_choose_symmetric(n as nat, k as nat);
    }
    let mut value: usize = 1;
    let mut index: usize = 0;
    while index < factors
        invariant
            index <= factors <= n,
            2 * factors <= n,
            choose_count(n as nat, k as nat) == choose_count(n as nat, factors as nat),
            value == choose_count(n as nat, index as nat),
        decreases factors - index,
    {
        let ghost next = choose_count(n as nat, (index + 1) as nat) as int;
        proof {
            lemma_choose_step(n as nat, (index + 1) as nat);
            lemma_choose_rises(n as nat, (index + 1) as nat, factors as nat);
            lemma_div_by_multiple(next, index + 1);
            assert(value * (n - index) <= usize::MAX * usize::MAX) by (nonlinear_arith)
                requires
                    0 <= value <= usize::MAX,
                    0 <= n - index <= usize::MAX,
            ;
            assert(usize::MAX * usize::MAX <= u128::MAX) by (nonlinear_arith)
                requires
                    usize::MAX <= 0xffff_ffff_ffff_ffff,
            ;
        }
        let product: u128 = (value as u128) * ((n - index) as u128);
        let ratio: u128 = product / ((index + 1) as u128);
        assert(ratio == next);
        if ratio > usize::MAX as u128 {
            return None;
        }
        value = ratio as usize;
        index = index + 1;
    }
    Some(value)
}

pub proof fn lemma_choose_above(n: nat, k: nat)
    requires
        k > n,
    ensures
        choose_count(n, k) == 0,
    decreases n,
{
    if n > 0 {
        lemma_choose_above((n - 1) as nat, k);
        lemma_choose_above((n - 1) as nat, (k - 1) as nat);
    }
}

pub proof fn lemma_choose_all(n: nat)
    ensures
        choose_count(n, n) == 1,
    decreases n,
{
    if n > 0 {
        lemma_choose_all((n - 1) as nat);
        lemma_choose_above((n - 1) as nat, n);
    }
}

/// Choosing what to take is choosing what to leave.
pub proof fn lemma_choose_symmetric(n: nat, k: nat)
    requires
        k <= n,
    ensures
        choose_count(n, k) == choose_count(n, (n - k) as nat),
    decreases n,
{
    if k == 0 || k == n {
        lemma_choose_all(n);
    } else {
        lemma_choose_symmetric((n - 1) as nat, k);
        lemma_choose_symmetric((n - 1) as nat, (k - 1) as nat);
    }
}

/// `C(n, k) * k == C(n, k - 1) * (n - k + 1)`.
pub proof fn lemma_choose_step(n: nat, k: nat)
    requires
        0 < k <= n,
    ensures
        choose_count(n, k) * k == choose_count(n, (k - 1) as nat) * (n - k + 1),
    decreases n,
{
    let m = (n - 1) as nat;
    let a = choose_count(m, k) as int;
    let b = choose_count(m, (k - 1) as nat) as int;
    if k <= m {
        lemma_choose_step(m, k);
    } else {
        lemma_choose_above(m, k);
    }
    assert(a * k == b * (m - k + 1)) by {
        if k > m {
            assert(m - k + 1 == 0);
            lemma_mul_basics(b);
            lemma_mul_basics(k as int);
        }
    }
    if k >= 2 {
        lemma_choose_step(m, (k - 1) as nat);
        let c = choose_count(m, (k - 2) as nat) as int;
        assert(b * (k - 1) == c * (m - (k - 1) + 1));
        assert((a + b) * k == (b + c) * (n - k + 1)) by (nonlinear_arith)
            requires
                a * k == b * (m - k + 1),
                b * (k - 1) == c * (m - (k - 1) + 1),
                m == n - 1,
        ;
    } else {
        assert(b == 1);
        assert((a + b) * k == 1 * (n - k + 1)) by (nonlinear_arith)
            requires
                a * k == b * (m - k + 1),
                b == 1,
                k == 1,
                m == n - 1,
        ;
    }
}

pub proof fn lemma_choose_rises(n: nat, j: nat, k: nat)
    requires
        j <= k,
        2 * k <= n,
    ensures
        choose_count(n, j) <= choose_count(n, k),
    decreases k - j,
{
    if j < k {
        lemma_choose_rises(n, j, (k - 1) as nat);
        lemma_choose_step(n, k);
        let x = choose_count(n, k) as int;
        let y = choose_count(n, (k - 1) as nat) as int;
        assert(y <= x) by (nonlinear_arith)
            requires
                x * k == y * (n - k + 1),
                0 < k,
                k <= n - k + 1,
                0 <= x,
                0 <= y,
        ;
    }
}

/// The rank of a bit pattern of `n` orbitals among those with as many ones: each
/// one at orbital `m`, being number `j` from below, skips `C(m, j)` patterns.
pub open spec fn combinatorial_rank(s: nat, n: nat) -> nat
    decreases n,
{
    if n == 0 {
        0
    } else {
        let m = (n - 1) as nat;
        let below = combinatorial_rank(s, m);
        if radix::digit(s, 2, m) == 1 {
            below + choose_count(m, radix::digit_sum(s, 2, n))
        } else {
            below
        }
    }
}

/// The rank of a fixed-weight state, summed from binomial coefficients; the largest
/// machine integer where the rank is none.
pub fn fixed_weight_state_index(state: u128, sites: usize, particles: usize) -> (result: Result<
    usize,
>)
    ensures
        match result {
            Ok(rank) => states::in_sector(state, 2, sites as nat, Some(particles)) && rank
                == saturated(combinatorial_rank(state as nat, sites as nat)),
            Err(error) => error is StateNotInBasis && !states::in_sector(
                state,
                2,
                sites as nat,
                Some(particles),
            ),
        },
{
    let ghost s = state as nat;
    let mut rank: usize = 0;
    let mut ordinal: usize = 0;
    let mut position: usize = 0;
    let mut remaining: u128 = state;
    proof {
        assert(s / radix::place(2, 0) == s) by {
            lemma_div_basics(s as int);
        }
        assert(radix::digits(s, 2, 0) =~= Seq::<nat>::empty());
    }
    while remaining != 0
        invariant
            s == state as nat,
            remaining == s / radix::place(2, position as nat),
            position <= 128,
            ordinal <= position,
            ordinal == radix::digit_sum(s, 2, position as nat),
            rank == saturated(combinatorial_rank(s, position as nat)),
            position > 0 ==> s >= radix::place(2, (position - 1) as nat),
        decreases remaining,
    {
        proof {
            radix::lemma_place_positive(2, position as nat);
            if s < radix::place(2, position as nat) {
                lemma_basic_div(s as int, radix::place(2, position as nat) as int);
            }
            radix::lemma_quotient_step(s, 2, position as nat);
            radix::lemma_digit_sum_extend(s, 2, position as nat);
            if position == 128 {
                states::lemma_power_of_two(128);
                lemma_basic_div(s as int, radix::place(2, 128) as int);
            }
        }
        if remaining % 2 == 1 {
            ordinal = ordinal + 1;
            let next: Option<usize> = match binomial(position, ordinal) {
                Some(count) => rank.checked_add(count),
                None => None,
            };
            rank = match next {
                Some(sum) => sum,
                None => usize::MAX,
            };
        }
        remaining = remaining / 2;
        position = position + 1;
    }
    proof {
        radix::lemma_place_positive(2, position as nat);
        assert(s < radix::place(2, position as nat)) by {
            if s >= radix::place(2, position as nat) {
                lemma_div_non_zero(s as int, radix::place(2, position as nat) as int);
            }
        }
        if position <= sites {
            radix::lemma_digit_sum_stable(s, 2, position as nat, sites as nat);
            radix::lemma_place_monotone(2, position as nat, sites as nat);
            lemma_rank_stable(s, position as nat, sites as nat);
        }
    }
    if ordinal != particles || position > sites {
        proof {
            if position > sites && s < radix::place(2, sites as nat) {
                radix::lemma_place_monotone(2, sites as nat, (position - 1) as nat);
            }
        }
        return Err(QmbedError::StateNotInBasis);
    }
    Ok(rank)
}

proof fn lemma_rank_stable(s: nat, m: nat, n: nat)
    requires
        s < radix::place(2, m),
        m <= n,
    ensures
        combinatorial_rank(s, n) == combinatorial_rank(s, m),
    decreases n,
{
    if m < n {
        let k = (n - 1) as nat;
        lemma_rank_stable(s, m, k);
        radix::lemma_place_monotone(2, m, k);
        radix::lemma_digit_above(s, 2, k);
    }
}

proof fn lemma_rank_of_low_digits(s: nat, t: nat, n: nat)
    requires
        forall|i: nat| i < n ==> radix::digit(s, 2, i) == radix::digit(t, 2, i),
    ensures
        combinatorial_rank(s, n) == combinatorial_rank(t, n),
    decreases n,
{
    if n > 0 {
        let m = (n - 1) as nat;
        lemma_rank_of_low_digits(s, t, m);
        assert(radix::digits(s, 2, n) =~= radix::digits(t, 2, n));
        assert(radix::digit(s, 2, m) == radix::digit(t, 2, m));
    }
}

/// How many leading entries lie below a bound.
spec fn count_below(list: Seq<u128>, bound: nat) -> nat
    decreases list.len(),
{
    if list.len() == 0 {
        0
    } else if list.last() < bound {
        list.len()
    } else {
        count_below(list.drop_last(), bound)
    }
}

proof fn lemma_count_below(list: Seq<u128>, bound: nat)
    requires
        states::ascending(list),
    ensures
        count_below(list, bound) <= list.len(),
        forall|i: int| 0 <= i < count_below(list, bound) ==> #[trigger] list[i] < bound,
        forall|i: int| count_below(list, bound) <= i < list.len() ==> #[trigger] list[i] >= bound,
    decreases list.len(),
{
    if list.len() > 0 && list.last() >= bound {
        let front = list.drop_last();
        lemma_count_below(front, bound);
        assert forall|i: int| 0 <= i < count_below(list, bound) implies #[trigger] list[i]
            < bound by {
            assert(front[i] < bound);
        }
        assert forall|i: int| count_below(list, bound) <= i < list.len() implies #[trigger] list[i]
            >= bound by {
            if i < front.len() {
                assert(front[i] >= bound);
            }
        }
    }
}

/// A fixed-weight sector has as many states as there are subsets of that size, and
/// the combinatorial rank of each state is its position in the sector.
pub proof fn rank_is_position(list: Seq<u128>, sites: nat, particles: usize)
    requires
        states::lists_sector(list, 2, sites, Some(particles)),
        radix::place(2, sites) <= u128::MAX + 1,
    ensures
        list.len() == choose_count(sites, particles as nat),
        forall|i: int|
            0 <= i < list.len() ==> combinatorial_rank(#[trigger] list[i] as nat, sites) == i,
    decreases sites,
{
    if sites == 0 {
        assert(radix::digits(0, 2, 0) =~= Seq::<nat>::empty());
        assert(states::in_sector(0, 2, 0, Some(particles)) <==> particles == 0);
        assert forall|i: int| 0 <= i < list.len() implies #[trigger] list[i] == 0 by {
            assert(list.contains(list[i]));
        }
        if particles == 0 {
            assert(list.contains(0));
            if list.len() > 1 {
                assert(list[0] < list[1]);
            }
        } else if list.len() > 0 {
            assert(list.contains(list[0]));
        }
    } else {
        let m = (sites - 1) as nat;
        let half = radix::place(2, m);
        radix::lemma_place_positive(2, m);
        let cut = count_below(list, half) as int;
        lemma_count_below(list, half);
        let low = list.subrange(0, cut);
        let high = Seq::new((list.len() - cut) as nat, |i: int| (list[cut + i] - half) as u128);
        lemma_low_half(list, low, cut, sites, particles);
        rank_is_position(low, m, particles);
        if particles > 0 {
            lemma_high_half(list, high, cut, sites, particles);
            rank_is_position(high, m, (particles - 1) as usize);
        } else {
            if cut < list.len() {
                let x = list[cut];
                assert(list.contains(x));
                let r = (x - half) as nat;
                radix::lemma_digit_sum_top(r, 1, 2, m);
                lemma_mul_basics(half as int);
            }
        }
        assert forall|i: int| 0 <= i < list.len() implies combinatorial_rank(
            #[trigger] list[i] as nat,
            sites,
        ) == i by {
            let x = list[i] as nat;
            assert(list.contains(list[i]));
            if i < cut {
                assert(low[i] == list[i]);
                radix::lemma_digit_above(x, 2, m);
            } else {
                let r = (x - half) as nat;
                assert(high[i - cut] == r);
                assert(combinatorial_rank(high[i - cut] as nat, m) == i - cut);
                lemma_top_bit(r, m);
                lemma_rank_of_low_digits(x, r, m);
            }
        }
    }
}

/// Setting orbital `m` above a pattern of `m` orbitals.
proof fn lemma_top_bit(r: nat, m: nat)
    requires
        r < radix::place(2, m),
    ensures
        radix::digit(r + radix::place(2, m), 2, m) == 1,
        forall|i: nat| i < m ==> radix::digit(r + radix::place(2, m), 2, i) == radix::digit(r, 2, i),
        r + radix::place(2, m) < radix::place(2, m + 1),
        radix::digit_sum(r + radix::place(2, m), 2, m + 1) == radix::digit_sum(r, 2, m) + 1,
{
    let p = radix::place(2, m);
    lemma_mul_basics(p as int);
    radix::lemma_digit_sum_top(r, 1, 2, m);
    assert(radix::place(2, 1) == 2) by {
        assert(radix::place(2, 0) == 1);
    }
    radix::lemma_digits_split(r, 1, 2, m, 1);
    let whole = radix::digits(r + p, 2, m + 1);
    let one = radix::digits(1, 2, 1);
    assert(one[0] == 1) by {
        assert(radix::place(2, 0) == 1);
        lemma_div_basics(1);
    }
    assert(whole == radix::digits(r, 2, m) + one);
    assert(whole[m as int] == one[0]);
    assert forall|i: nat| i < m implies radix::digit(r + p, 2, i) == radix::digit(r, 2, i) by {
        assert(whole[i as int] == radix::digits(r, 2, m)[i as int]);
    }
}

proof fn lemma_low_half(list: Seq<u128>, low: Seq<u128>, cut: int, sites: nat, particles: usize)
    requires
        sites > 0,
        states::lists_sector(list, 2, sites, Some(particles)),
        0 <= cut <= list.len(),
        low == list.subrange(0, cut),
        forall|i: int|
            0 <= i < cut ==> #[trigger] list[i] < radix::place(2, (sites - 1) as nat),
        forall|i: int|
            cut <= i < list.len() ==> #[trigger] list[i] >= radix::place(2, (sites - 1) as nat),
    ensures
        states::lists_sector(low, 2, (sites - 1) as nat, Some(particles)),
{
    let m = (sites - 1) as nat;
    radix::lemma_place_monotone(2, m, sites);
    assert forall|x: u128|
        #![trigger low.contains(x)]
        low.contains(x) <==> states::in_sector(x, 2, m, Some(particles)) by {
        if low.contains(x) {
            let i = choose|i: int| 0 <= i < low.len() && low[i] == x;
            assert(list[i] == x);
            assert(list.contains(x));
            radix::lemma_digit_sum_stable(x as nat, 2, m, sites);
        }
        if states::in_sector(x, 2, m, Some(particles)) {
            radix::lemma_digit_sum_stable(x as nat, 2, m, sites);
            assert(states::in_sector(x, 2, sites, Some(particles)));
            assert(list.contains(x));
            let i = choose|i: int| 0 <= i < list.len() && list[i] == x;
            assert(low[i] == x);
        }
    }
}

proof fn lemma_high_half(list: Seq<u128>, high: Seq<u128>, cut: int, sites: nat, particles: usize)
    requires
        sites > 0,
        particles > 0,
        radix::place(2, sites) <= u128::MAX + 1,
        states::lists_sector(list, 2, sites, Some(particles)),
        0 <= cut <= list.len(),
        high.len() == list.len() - cut,
        forall|i: int|
            0 <= i < high.len() ==> #[trigger] high[i] == list[cut + i] - radix::place(
                2,
                (sites - 1) as nat,
            ),
        forall|i: int|
            0 <= i < cut ==> #[trigger] list[i] < radix::place(2, (sites - 1) as nat),
        forall|i: int|
            cut <= i < list.len() ==> #[trigger] list[i] >= radix::place(2, (sites - 1) as nat),
    ensures
        states::lists_sector(high, 2, (sites - 1) as nat, Some((particles - 1) as usize)),
{
    let m = (sites - 1) as nat;
    let half = radix::place(2, m);
    assert(radix::place(2, sites) == 2 * half);
    let fewer = Some((particles - 1) as usize);
    assert forall|x: u128|
        #![trigger high.contains(x)]
        high.contains(x) <==> states::in_sector(x, 2, m, fewer) by {
        if x < half {
            lemma_top_bit(x as nat, m);
        }
        if high.contains(x) {
            let i = choose|i: int| 0 <= i < high.len() && high[i] == x;
            assert(list.contains(list[cut + i]));
            assert(x < half);
        }
        if states::in_sector(x, 2, m, fewer) {
            let y = (x + half) as u128;
            assert(states::in_sector(y, 2, sites, Some(particles)));
            assert(list.contains(y));
            let i = choose|i: int| 0 <= i < list.len() && list[i] == y;
            assert(high[i - cut] == x);
        }
    }
}

/// The lookup of a fixed-weight state gives its position in the enumerated sector.
pub proof fn fixed_weight_lookup_inverts_enumeration(
    list: Seq<u128>,
    sites: nat,
    particles: usize,
    index: int,
)
    requires
        states::lists_sector(list, 2, sites, Some(particles)),
        radix::place(2, sites) <= u128::MAX + 1,
        0 <= index < list.len() <= usize::MAX,
    ensures
        states::in_sector(list[index], 2, sites, Some(particles)),
        saturated(combinatorial_rank(list[index] as nat, sites)) == index,
{
    rank_is_position(list, sites, particles);
    assert(list.contains(list[index]));
}

} // verus!
