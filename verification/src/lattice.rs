//! Translations and reflections of a ring of sites, acting on encoded states.

use vstd::prelude::*;
use vstd::arithmetic::mul::*;
use vstd::arithmetic::div_mod::*;
use crate::radix;

verus! {

/// The digits moved upwards by `t` sites around the ring.
pub open spec fn rotated(ds: Seq<nat>, t: nat) -> Seq<nat> {
    ds.subrange(ds.len() - t, ds.len() as int) + ds.subrange(0, ds.len() - t)
}

/// The encoded state moved upwards by `t` sites around a ring of `n` sites.
pub open spec fn rotated_state(s: nat, t: nat, n: nat, b: nat) -> nat {
    radix::value(rotated(radix::digits(s, b, n), t), b)
}

/// The encoded state with the order of its `n` sites reversed.
pub open spec fn reflected_state(s: nat, n: nat, b: nat) -> nat {
    radix::value(radix::digits(s, b, n).reverse(), b)
}

pub proof fn lemma_rotated_index(ds: Seq<nat>, t: nat)
    requires
        t < ds.len(),
    ensures
        rotated(ds, t).len() == ds.len(),
        forall|i: int|
            0 <= i < ds.len() ==> #[trigger] rotated(ds, t)[i] == (if i < t {
                ds[ds.len() - t + i]
            } else {
                ds[i - t]
            }),
{
}

/// Successive rotations add up.
pub proof fn lemma_rotated_twice(ds: Seq<nat>, a: nat, c: nat)
    requires
        a < ds.len(),
        c < ds.len(),
    ensures
        rotated(rotated(ds, a), c) =~= rotated(ds, (a + c) % ds.len()),
{
    let n = ds.len();
    lemma_rotated_index(ds, a);
    lemma_rotated_index(rotated(ds, a), c);
    if a + c < n {
        lemma_small_mod(a + c, n);
    } else {
        lemma_fundamental_div_mod_converse((a + c) as int, n as int, 1, a + c - n);
    }
    lemma_rotated_index(ds, (a + c) % n);
}

/// Reflecting a rotated ring rotates the reflected ring the other way.
pub proof fn lemma_reverse_rotated(ds: Seq<nat>, a: nat)
    requires
        a < ds.len(),
    ensures
        rotated(ds, a).reverse() =~= rotated(ds.reverse(), (ds.len() - a) as nat % ds.len()),
{
    let n = ds.len();
    lemma_rotated_index(ds, a);
    if a == 0 {
        lemma_mod_self_0(n as int);
    } else {
        lemma_small_mod((n - a) as nat, n);
    }
    lemma_rotated_index(ds.reverse(), (n - a) as nat % n);
}

pub proof fn lemma_rotated_valid(ds: Seq<nat>, t: nat, b: nat)
    requires
        t < ds.len(),
        radix::valid_digits(ds, b),
    ensures
        radix::valid_digits(rotated(ds, t), b),
{
    lemma_rotated_index(ds, t);
}

pub proof fn lemma_reverse_valid(ds: Seq<nat>, b: nat)
    requires
        radix::valid_digits(ds, b),
    ensures
        radix::valid_digits(ds.reverse(), b),
{
    assert forall|i: int| 0 <= i < ds.len() implies #[trigger] ds.reverse()[i] < b by {
        assert(ds.reverse()[i] == ds[ds.len() - 1 - i]);
    }
}

pub proof fn lemma_rotated_total(ds: Seq<nat>, t: nat)
    requires
        t <= ds.len(),
    ensures
        radix::total(rotated(ds, t)) == radix::total(ds),
{
    let low = ds.subrange(0, ds.len() - t);
    let high = ds.subrange(ds.len() - t, ds.len() as int);
    assert(ds =~= low + high);
    radix::lemma_total_concat(low, high);
    radix::lemma_total_concat(high, low);
}

pub proof fn lemma_rotated_state_digits(s: nat, t: nat, n: nat, b: nat)
    requires
        b > 0,
        t < n,
    ensures
        rotated_state(s, t, n, b) < radix::place(b, n),
        radix::digits(rotated_state(s, t, n, b), b, n) == rotated(radix::digits(s, b, n), t),
{
    let ds = radix::digits(s, b, n);
    radix::lemma_digits_valid(s, b, n);
    lemma_rotated_valid(ds, t, b);
    lemma_rotated_index(ds, t);
    radix::lemma_value_bound(rotated(ds, t), b);
    radix::lemma_digits_of_value(rotated(ds, t), b);
}

pub proof fn lemma_reflected_state_digits(s: nat, n: nat, b: nat)
    requires
        b > 0,
    ensures
        reflected_state(s, n, b) < radix::place(b, n),
        radix::digits(reflected_state(s, n, b), b, n) == radix::digits(s, b, n).reverse(),
{
    let ds = radix::digits(s, b, n);
    radix::lemma_digits_valid(s, b, n);
    lemma_reverse_valid(ds, b);
    radix::lemma_value_bound(ds.reverse(), b);
    radix::lemma_digits_of_value(ds.reverse(), b);
}

/// Translations of the ring add up: moving by `a` and then by `c` is moving by
/// `a + c` around the ring.
pub proof fn translations_compose(s: nat, a: nat, c: nat, n: nat, b: nat)
    requires
        b > 0,
        a < n,
        c < n,
    ensures
        rotated_state(rotated_state(s, a, n, b), c, n, b) == rotated_state(s, (a + c) % n, n, b),
{
    lemma_rotated_state_digits(s, a, n, b);
    lemma_rotated_twice(radix::digits(s, b, n), a, c);
}

/// A full turn of the ring changes nothing.
pub proof fn translation_inverse(s: nat, a: nat, n: nat, b: nat)
    requires
        b > 0,
        a < n,
        s < radix::place(b, n),
    ensures
        rotated_state(rotated_state(s, a, n, b), (n - a) as nat % n, n, b) == s,
{
    if a == 0 {
        lemma_mod_self_0(n as int);
    } else {
        lemma_small_mod((n - a) as nat, n);
        lemma_mod_self_0(n as int);
    }
    translations_compose(s, a, (n - a) as nat % n, n, b);
    let ds = radix::digits(s, b, n);
    assert((a + (n - a) as nat % n) % n == 0) by {
        if a == 0 {
            lemma_small_mod(0, n);
        }
    }
    assert(rotated(ds, 0) =~= ds);
    radix::lemma_value_of_digits(s, b, n);
}

/// Reflecting twice changes nothing.
pub proof fn reflection_involution(s: nat, n: nat, b: nat)
    requires
        b > 0,
        s < radix::place(b, n),
    ensures
        reflected_state(reflected_state(s, n, b), n, b) == s,
{
    lemma_reflected_state_digits(s, n, b);
    let ds = radix::digits(s, b, n);
    assert(ds.reverse().reverse() =~= ds);
    radix::lemma_value_of_digits(s, b, n);
}

/// A reflection turns a translation round.
pub proof fn reflection_inverts_translations(s: nat, a: nat, n: nat, b: nat)
    requires
        b > 0,
        a < n,
    ensures
        reflected_state(rotated_state(s, a, n, b), n, b) == rotated_state(
            reflected_state(s, n, b),
            (n - a) as nat % n,
            n,
            b,
        ),
{
    lemma_rotated_state_digits(s, a, n, b);
    lemma_reflected_state_digits(s, n, b);
    lemma_reverse_rotated(radix::digits(s, b, n), a);
}

/// Translations and reflections keep the digit total.
pub proof fn lattice_maps_keep_occupation(s: nat, a: nat, n: nat, b: nat)
    requires
        b > 0,
        a < n,
    ensures
        radix::digit_sum(rotated_state(s, a, n, b), b, n) == radix::digit_sum(s, b, n),
        radix::digit_sum(reflected_state(s, n, b), b, n) == radix::digit_sum(s, b, n),
{
    lemma_rotated_state_digits(s, a, n, b);
    lemma_reflected_state_digits(s, n, b);
    lemma_rotated_total(radix::digits(s, b, n), a);
    radix::lemma_total_reverse(radix::digits(s, b, n));
}

/// `base` to the power `exponent`.
pub fn power(base: u128, exponent: usize) -> (result: u128)
    requires
        base > 0,
        radix::place(base as nat, exponent as nat) <= u128::MAX,
    ensures
        result == radix::place(base as nat, exponent as nat),
{
    let mut result: u128 = 1;
    let mut done: usize = 0;
    while done < exponent
        invariant
            base > 0,
            done <= exponent,
            result == radix::place(base as nat, done as nat),
            radix::place(base as nat, exponent as nat) <= u128::MAX,
        decreases exponent - done,
    {
        proof {
            radix::lemma_place_monotone(base as nat, (done + 1) as nat, exponent as nat);
            assert(radix::place(base as nat, (done + 1) as nat) == base * result);
        }
        result = base * result;
        done = done + 1;
    }
    result
}

/// Moves every digit of a lattice state upwards by `shift` sites around the ring.
pub fn rotate_lattice_state(state: u128, shift: usize, sites: usize, base: u128) -> (result: u128)
    requires
        base > 0,
        radix::place(base as nat, sites as nat) <= u128::MAX + 1,
        state < radix::place(base as nat, sites as nat),
    ensures
        sites == 0 ==> result == state,
        sites > 0 ==> result == rotated_state(
            state as nat,
            (shift % sites) as nat,
            sites as nat,
            base as nat,
        ),
        result < radix::place(base as nat, sites as nat),
{
    if sites == 0 {
        return state;
    }
    let step: usize = shift % sites;
    let ghost b = base as nat;
    let ghost n = sites as nat;
    let ghost ds = radix::digits(state as nat, b, n);
    if step == 0 {
        assert(rotated(ds, 0) =~= ds);
        proof {
            radix::lemma_value_of_digits(state as nat, b, n);
        }
        return state;
    }
    proof {
        lemma_place_below(b, n, step as nat);
        lemma_place_below(b, n, (n - step) as nat);
    }
    let low_place: u128 = power(base, sites - step);
    let high_place: u128 = power(base, step);
    proof {
        lemma_rotation_by_parts(state as nat, step as nat, n, b);
    }
    let low: u128 = state % low_place;
    let high: u128 = state / low_place;
    low * high_place + high
}

pub proof fn lemma_place_below(b: nat, n: nat, m: nat)
    requires
        b > 0,
        0 < m < n,
        radix::place(b, n) <= u128::MAX + 1,
    ensures
        radix::place(b, m) <= u128::MAX,
{
    if b == 1 {
        radix::lemma_place_one(m);
    } else {
        radix::lemma_place_strict(b, m, n);
    }
}

pub proof fn lemma_rotation_by_parts(s: nat, t: nat, n: nat, b: nat)
    requires
        b > 0,
        0 < t < n,
        s < radix::place(b, n),
    ensures
        radix::place(b, (n - t) as nat) > 0,
        (s % radix::place(b, (n - t) as nat)) * radix::place(b, t) + s / radix::place(
            b,
            (n - t) as nat,
        ) == rotated_state(s, t, n, b),
        0 <= (s % radix::place(b, (n - t) as nat)) * radix::place(b, t),
        rotated_state(s, t, n, b) < radix::place(b, n),
{
    let m = (n - t) as nat;
    let p = radix::place(b, m);
    let q = radix::place(b, t);
    radix::lemma_place_positive(b, m);
    radix::lemma_place_positive(b, t);
    radix::lemma_place_add(b, m, t);
    let low = s % p;
    let high = s / p;
    lemma_fundamental_div_mod(s as int, p as int);
    lemma_mod_bound(s as int, p as int);
    assert(high < q) by {
        lemma_multiply_divide_lt(s as int, p as int, q as int);
        lemma_mul_is_commutative(p as int, q as int);
    }
    radix::lemma_digits_split(low, high, b, m, t);
    let ds = radix::digits(s, b, n);
    let dl = radix::digits(low, b, m);
    let dh = radix::digits(high, b, t);
    assert(ds == dl + dh);
    assert(rotated(ds, t) =~= dh + dl);
    radix::lemma_value_concat(dh, dl, b);
    radix::lemma_value_of_digits(low, b, m);
    radix::lemma_value_of_digits(high, b, t);
    lemma_mul_is_commutative(low as int, q as int);
    lemma_rotated_state_digits(s, t, n, b);
    assert(0 <= low * q) by (nonlinear_arith);
}

/// Reverses the order of the digits of a lattice state.
pub fn reflect_lattice_state(state: u128, sites: usize, base: u128) -> (result: u128)
    requires
        base > 0,
        radix::place(base as nat, sites as nat) <= u128::MAX + 1,
        state < radix::place(base as nat, sites as nat),
    ensures
        result == reflected_state(state as nat, sites as nat, base as nat),
        result < radix::place(base as nat, sites as nat),
{
    let ghost b = base as nat;
    let ghost n = sites as nat;
    let ghost ds = radix::digits(state as nat, b, n);
    let mut reflected: u128 = 0;
    let mut remaining: u128 = state;
    let mut site: usize = 0;
    proof {
        assert(state as nat / radix::place(b, 0) == state as nat) by {
            lemma_div_basics(state as int);
        }
        assert(ds.subrange(0, 0).reverse() =~= Seq::<nat>::empty());
        radix::lemma_digits_valid(state as nat, b, n);
    }
    while site < sites
        invariant
            base > 0,
            b == base as nat,
            n == sites as nat,
            site <= sites,
            radix::place(b, n) <= u128::MAX + 1,
            ds == radix::digits(state as nat, b, n),
            radix::valid_digits(ds, b),
            remaining == state as nat / radix::place(b, site as nat),
            reflected == radix::value(ds.subrange(0, site as int).reverse(), b),
        decreases sites - site,
    {
        proof {
            radix::lemma_quotient_step(state as nat, b, site as nat);
            let before = ds.subrange(0, site as int).reverse();
            let after = ds.subrange(0, site + 1).reverse();
            assert(after =~= seq![ds[site as int]] + before);
            radix::lemma_value_concat(seq![ds[site as int]], before, b);
            assert(radix::value(seq![ds[site as int]], b) == ds[site as int]) by {
                assert(seq![ds[site as int]].drop_first() =~= Seq::<nat>::empty());
                assert(radix::value(seq![ds[site as int]].drop_first(), b) == 0);
                lemma_mul_basics(b as int);
            }
            assert(radix::place(b, 1) == b) by {
                assert(radix::place(b, 0) == 1);
                lemma_mul_basics(b as int);
            }
            assert forall|i: int| 0 <= i < after.len() implies #[trigger] after[i] < b by {
                assert(after[i] == ds[site - i]);
            }
            radix::lemma_value_bound(after, b);
            radix::lemma_place_monotone(b, (site + 1) as nat, n);
            assert(0 <= b * reflected) by (nonlinear_arith)
                requires
                    b >= 0,
                    reflected >= 0,
            ;
        }
        reflected = base * reflected + remaining % base;
        remaining = remaining / base;
        site = site + 1;
    }
    proof {
        assert(ds.subrange(0, site as int) =~= ds);
        lemma_reflected_state_digits(state as nat, n, b);
    }
    reflected
}

} // verus!
