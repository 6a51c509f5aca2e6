//! Positional numeration: the digit sequences behind encoded lattice states.
//!
//! A lattice state is a natural number whose base-`b` digits are the local
//! occupations, site zero being the least significant digit.

use vstd::prelude::*;
use vstd::arithmetic::div_mod::*;
use vstd::arithmetic::mul::*;

verus! {

/// The weight of digit `n` in base `b`, that is `b` to the power `n`.
pub open spec fn place(b: nat, n: nat) -> nat
    decreases n,
{
    if n == 0 {
        1
    } else {
        b * place(b, (n - 1) as nat)
    }
}

/// Digit number `i` of `s` in base `b`.
pub open spec fn digit(s: nat, b: nat, i: nat) -> nat {
    (s / place(b, i)) % b
}

/// The lowest `n` digits of `s` in base `b`, least significant first.
pub open spec fn digits(s: nat, b: nat, n: nat) -> Seq<nat> {
    Seq::new(n, |i: int| digit(s, b, i as nat))
}

/// The number whose digits are `ds`, least significant first.
pub open spec fn value(ds: Seq<nat>, b: nat) -> nat
    decreases ds.len(),
{
    if ds.len() == 0 {
        0
    } else {
        ds[0] + b * value(ds.drop_first(), b)
    }
}

/// Every entry is a digit of base `b`.
pub open spec fn valid_digits(ds: Seq<nat>, b: nat) -> bool {
    forall|i: int| 0 <= i < ds.len() ==> #[trigger] ds[i] < b
}

/// The sum of all entries.
pub open spec fn total(ds: Seq<nat>) -> nat
    decreases ds.len(),
{
    if ds.len() == 0 {
        0
    } else {
        ds[0] + total(ds.drop_first())
    }
}

/// The sum of the lowest `n` digits of `s`; in base two, the number of ones.
pub open spec fn digit_sum(s: nat, b: nat, n: nat) -> nat {
    total(digits(s, b, n))
}

pub proof fn lemma_place_positive(b: nat, n: nat)
    requires
        b > 0,
    ensures
        place(b, n) > 0,
    decreases n,
{
    if n > 0 {
        lemma_place_positive(b, (n - 1) as nat);
        lemma_mul_strictly_positive(b as int, place(b, (n - 1) as nat) as int);
    }
}

pub proof fn lemma_place_add(b: nat, m: nat, n: nat)
    ensures
        place(b, m + n) == place(b, m) * place(b, n),
    decreases m,
{
    if m == 0 {
        lemma_mul_basics(place(b, n) as int);
    } else {
        lemma_place_add(b, (m - 1) as nat, n);
        assert((m + n - 1) as nat == (m - 1) as nat + n);
        lemma_mul_is_associative(b as int, place(b, (m - 1) as nat) as int, place(b, n) as int);
    }
}

pub proof fn lemma_place_monotone(b: nat, m: nat, n: nat)
    requires
        b > 0,
        m <= n,
    ensures
        place(b, m) <= place(b, n),
{
    lemma_place_add(b, m, (n - m) as nat);
    lemma_place_positive(b, (n - m) as nat);
    lemma_place_positive(b, m);
    let p = place(b, m) as int;
    let q = place(b, (n - m) as nat) as int;
    assert(p <= p * q) by (nonlinear_arith)
        requires
            p > 0,
            q > 0,
    ;
}

pub proof fn lemma_place_strict(b: nat, m: nat, n: nat)
    requires
        b > 1,
        m < n,
    ensures
        place(b, m) < place(b, n),
{
    lemma_place_monotone(b, m + 1, n);
    lemma_place_positive(b, m);
    let p = place(b, m) as int;
    assert(p < b * p) by (nonlinear_arith)
        requires
            p > 0,
            b > 1,
    ;
}

pub proof fn lemma_place_one(n: nat)
    ensures
        place(1, n) == 1,
    decreases n,
{
    if n > 0 {
        lemma_place_one((n - 1) as nat);
    }
}

/// Digit `i + 1` of a number is digit `i` of its quotient by the base.
pub proof fn lemma_digit_shift(s: nat, b: nat, i: nat)
    requires
        b > 0,
    ensures
        digit(s, b, i + 1) == digit(s / b, b, i),
{
    lemma_place_positive(b, i);
    lemma_div_denominator(s as int, b as int, place(b, i) as int);
}

pub proof fn lemma_digits_unfold(s: nat, b: nat, n: nat)
    requires
        b > 0,
        n > 0,
    ensures
        digits(s, b, n).len() == n,
        digits(s, b, n)[0] == s % b,
        digits(s, b, n).drop_first() =~= digits(s / b, b, (n - 1) as nat),
{
    assert(s / 1 == s) by {
        lemma_div_basics(s as int);
    }
    let tail = digits(s, b, n).drop_first();
    assert forall|i: int| 0 <= i < n - 1 implies tail[i] == digits(s / b, b, (n - 1) as nat)[i] by {
        lemma_digit_shift(s, b, i as nat);
    }
}

pub proof fn lemma_digits_valid(s: nat, b: nat, n: nat)
    requires
        b > 0,
    ensures
        valid_digits(digits(s, b, n), b),
{
    assert forall|i: int| 0 <= i < n implies #[trigger] digits(s, b, n)[i] < b by {
        lemma_mod_bound((s / place(b, i as nat)) as int, b as int);
    }
}

/// A number below `b^n` is the value of its lowest `n` digits.
pub proof fn lemma_value_of_digits(s: nat, b: nat, n: nat)
    requires
        b > 0,
        s < place(b, n),
    ensures
        value(digits(s, b, n), b) == s,
    decreases n,
{
    if n > 0 {
        lemma_digits_unfold(s, b, n);
        let q = s / b;
        lemma_place_positive(b, (n - 1) as nat);
        assert(q < place(b, (n - 1) as nat)) by {
            lemma_multiply_divide_lt(s as int, b as int, place(b, (n - 1) as nat) as int);
            lemma_mul_is_commutative(b as int, place(b, (n - 1) as nat) as int);
        }
        lemma_value_of_digits(q, b, (n - 1) as nat);
        lemma_fundamental_div_mod(s as int, b as int);
    }
}

pub proof fn lemma_value_bound(ds: Seq<nat>, b: nat)
    requires
        b > 0,
        valid_digits(ds, b),
    ensures
        value(ds, b) < place(b, ds.len()),
    decreases ds.len(),
{
    if ds.len() > 0 {
        let tail = ds.drop_first();
        assert forall|i: int| 0 <= i < tail.len() implies #[trigger] tail[i] < b by {
            assert(tail[i] == ds[i + 1]);
        }
        lemma_value_bound(tail, b);
        let v = value(tail, b) as int;
        let p = place(b, tail.len()) as int;
        let d = ds[0] as int;
        assert(d + b * v < b * p) by (nonlinear_arith)
            requires
                0 <= d < b,
                v + 1 <= p,
                b > 0,
        ;
    }
}

/// A valid digit sequence is read back from its value.
pub proof fn lemma_digits_of_value(ds: Seq<nat>, b: nat)
    requires
        b > 0,
        valid_digits(ds, b),
    ensures
        digits(value(ds, b), b, ds.len()) =~= ds,
    decreases ds.len(),
{
    if ds.len() > 0 {
        let tail = ds.drop_first();
        assert forall|i: int| 0 <= i < tail.len() implies #[trigger] tail[i] < b by {
            assert(tail[i] == ds[i + 1]);
        }
        let v = value(tail, b);
        lemma_digits_of_value(tail, b);
        lemma_digits_unfold(value(ds, b), b, ds.len());
        let x = value(ds, b) as int;
        assert(ds[0] < b);
        lemma_fundamental_div_mod_converse(x, b as int, v as int, ds[0] as int);
        assert(digits(value(ds, b), b, ds.len()).drop_first() =~= tail);
        assert forall|i: int| 0 <= i < ds.len() implies digits(value(ds, b), b, ds.len())[i]
            == ds[i] by {
            if i > 0 {
                assert(digits(value(ds, b), b, ds.len()).drop_first()[i - 1] == tail[i - 1]);
            }
        }
    }
}

pub proof fn lemma_value_concat(a: Seq<nat>, c: Seq<nat>, b: nat)
    ensures
        value(a + c, b) == value(a, b) + place(b, a.len()) * value(c, b),
    decreases a.len(),
{
    if a.len() == 0 {
        assert(a + c =~= c);
        lemma_mul_basics(value(c, b) as int);
    } else {
        let at = a.drop_first();
        assert((a + c).drop_first() =~= at + c);
        lemma_value_concat(at, c, b);
        let p = place(b, at.len()) as int;
        let x = value(at, b) as int;
        let y = value(c, b) as int;
        assert(b * (x + p * y) == b * x + (b * p) * y) by (nonlinear_arith);
    }
}

/// The digits of `low + b^m * high` are those of `low` followed by those of `high`.
pub proof fn lemma_digits_split(low: nat, high: nat, b: nat, m: nat, k: nat)
    requires
        b > 0,
        low < place(b, m),
        high < place(b, k),
    ensures
        low + place(b, m) * high < place(b, m + k),
        digits(low + place(b, m) * high, b, m + k) =~= digits(low, b, m) + digits(high, b, k),
{
    let joined = digits(low, b, m) + digits(high, b, k);
    lemma_digits_valid(low, b, m);
    lemma_digits_valid(high, b, k);
    assert forall|i: int| 0 <= i < joined.len() implies #[trigger] joined[i] < b by {
        if i < m {
            assert(joined[i] == digits(low, b, m)[i]);
        } else {
            assert(joined[i] == digits(high, b, k)[i - m]);
        }
    }
    lemma_value_concat(digits(low, b, m), digits(high, b, k), b);
    lemma_value_of_digits(low, b, m);
    lemma_value_of_digits(high, b, k);
    lemma_digits_of_value(joined, b);
    lemma_value_bound(joined, b);
}

pub proof fn lemma_total_concat(a: Seq<nat>, c: Seq<nat>)
    ensures
        total(a + c) == total(a) + total(c),
    decreases a.len(),
{
    if a.len() == 0 {
        assert(a + c =~= c);
    } else {
        assert((a + c).drop_first() =~= a.drop_first() + c);
        lemma_total_concat(a.drop_first(), c);
    }
}

pub proof fn lemma_total_single(d: nat)
    ensures
        total(seq![d]) == d,
{
    assert(seq![d].drop_first() =~= Seq::<nat>::empty());
    assert(total(seq![d].drop_first()) == 0);
}

pub proof fn lemma_total_reverse(a: Seq<nat>)
    ensures
        total(a.reverse()) == total(a),
    decreases a.len(),
{
    if a.len() == 0 {
        assert(a.reverse() =~= a);
    } else {
        let t = a.drop_first();
        assert(a.reverse() =~= t.reverse() + seq![a[0]]);
        lemma_total_reverse(t);
        lemma_total_concat(t.reverse(), seq![a[0]]);
        lemma_total_single(a[0]);
    }
}

pub proof fn lemma_total_bound(ds: Seq<nat>, b: nat)
    requires
        b > 0,
        valid_digits(ds, b),
    ensures
        total(ds) <= ds.len() * (b - 1),
    decreases ds.len(),
{
    if ds.len() > 0 {
        let tail = ds.drop_first();
        assert forall|i: int| 0 <= i < tail.len() implies #[trigger] tail[i] < b by {
            assert(tail[i] == ds[i + 1]);
        }
        lemma_total_bound(tail, b);
        let n = tail.len() as int;
        assert((n + 1) * (b - 1) == n * (b - 1) + (b - 1)) by (nonlinear_arith);
    }
}

/// Splitting off the most significant of `n + 1` digits.
pub proof fn lemma_digit_sum_top(low: nat, d: nat, b: nat, n: nat)
    requires
        b > 0,
        low < place(b, n),
        d < b,
    ensures
        low + place(b, n) * d < place(b, n + 1),
        digit_sum(low + place(b, n) * d, b, n + 1) == digit_sum(low, b, n) + d,
{
    assert(place(b, 1) == b) by {
        assert(place(b, 0) == 1);
        lemma_mul_basics(b as int);
    }
    lemma_digits_split(low, d, b, n, 1);
    assert(digits(d, b, 1) =~= seq![d]) by {
        assert(place(b, 0) == 1);
        lemma_div_basics(d as int);
        lemma_small_mod(d, b);
    }
    lemma_total_concat(digits(low, b, n), digits(d, b, 1));
    lemma_total_single(d);
}

pub proof fn lemma_digit_sum_zero(b: nat, n: nat)
    requires
        b > 0,
    ensures
        digit_sum(0, b, n) == 0,
    decreases n,
{
    if n > 0 {
        lemma_digits_unfold(0, b, n);
        lemma_digit_sum_zero(b, (n - 1) as nat);
        assert(0nat / b == 0) by {
            lemma_div_basics(b as int);
        }
        lemma_small_mod(0, b);
    }
}

/// Adding one more digit to the sum.
pub proof fn lemma_digit_sum_extend(s: nat, b: nat, n: nat)
    ensures
        digit_sum(s, b, n + 1) == digit_sum(s, b, n) + digit(s, b, n),
{
    let d = digit(s, b, n);
    assert(digits(s, b, n + 1) =~= digits(s, b, n) + seq![d]);
    lemma_total_concat(digits(s, b, n), seq![d]);
    lemma_total_single(d);
}

/// Digits beyond the size of a number are zero.
pub proof fn lemma_digit_above(s: nat, b: nat, i: nat)
    requires
        b > 0,
        s < place(b, i),
    ensures
        digit(s, b, i) == 0,
{
    lemma_basic_div(s as int, place(b, i) as int);
    lemma_small_mod(0, b);
}

/// Leading zeros do not change the digit sum.
pub proof fn lemma_digit_sum_stable(s: nat, b: nat, m: nat, n: nat)
    requires
        b > 0,
        s < place(b, m),
        m <= n,
    ensures
        digit_sum(s, b, n) == digit_sum(s, b, m),
    decreases n,
{
    if m < n {
        let k = (n - 1) as nat;
        lemma_digit_sum_stable(s, b, m, k);
        lemma_place_monotone(b, m, k);
        lemma_digit_above(s, b, k);
        lemma_digit_sum_extend(s, b, k);
    }
}

/// The quotient by one more place.
pub proof fn lemma_quotient_step(s: nat, b: nat, i: nat)
    requires
        b > 0,
    ensures
        s / place(b, i + 1) == (s / place(b, i)) / b,
        digit(s, b, i) == (s / place(b, i)) % b,
{
    lemma_place_positive(b, i);
    lemma_mul_is_commutative(b as int, place(b, i) as int);
    lemma_div_denominator(s as int, place(b, i) as int, b as int);
}

/// Raising one digit below its maximum leaves all other digits alone.
pub proof fn lemma_raise_digit(s: nat, b: nat, i: nat, n: nat)
    requires
        b > 0,
        i < n,
        digit(s, b, i) + 1 < b,
    ensures
        digits(s + place(b, i), b, n) =~= digits(s, b, n).update(i as int, digit(s, b, i) + 1),
        digit_sum(s + place(b, i), b, n) == digit_sum(s, b, n) + 1,
        (s + place(b, i)) / place(b, n) == s / place(b, n),
{
    let p = place(b, i);
    let t = s + p;
    lemma_place_positive(b, i);
    let q = s / p;
    let r = s % p;
    lemma_fundamental_div_mod(s as int, p as int);
    lemma_mod_bound(s as int, p as int);
    assert(t / p == q + 1 && t % p == r) by {
        assert(t == (q + 1) * p + r) by (nonlinear_arith)
            requires
                s == p * q + r,
                t == s + p,
        ;
        lemma_fundamental_div_mod_converse(t as int, p as int, (q + 1) as int, r as int);
    }
    let d = digit(s, b, i);
    let u = q / b;
    lemma_fundamental_div_mod(q as int, b as int);
    assert((q + 1) / b == u && (q + 1) % b == d + 1) by {
        lemma_fundamental_div_mod_converse((q + 1) as int, b as int, u as int, (d + 1) as int);
    }
    lemma_quotient_step(s, b, i);
    lemma_quotient_step(t, b, i);
    assert(s / place(b, i + 1) == t / place(b, i + 1));
    let ds = digits(s, b, n);
    let dt = digits(t, b, n);
    assert forall|j: int| 0 <= j < n implies dt[j] == ds.update(i as int, d + 1)[j] by {
        if j < i {
            lemma_low_digits_kept(s, b, j as nat, i);
        } else if j > i {
            lemma_quotient_agrees(s, t, b, i + 1, j as nat);
        }
    }
    lemma_quotient_agrees(s, t, b, i + 1, n);
    assert(dt =~= ds.update(i as int, d + 1));
    lemma_total_update(ds, i as int, d + 1);
}

proof fn lemma_quotient_agrees(s: nat, t: nat, b: nat, m: nat, n: nat)
    requires
        b > 0,
        m <= n,
        s / place(b, m) == t / place(b, m),
    ensures
        s / place(b, n) == t / place(b, n),
{
    let k = (n - m) as nat;
    lemma_place_add(b, m, k);
    lemma_place_positive(b, m);
    lemma_place_positive(b, k);
    lemma_div_denominator(s as int, place(b, m) as int, place(b, k) as int);
    lemma_div_denominator(t as int, place(b, m) as int, place(b, k) as int);
}

proof fn lemma_low_digits_kept(s: nat, b: nat, j: nat, i: nat)
    requires
        b > 0,
        j < i,
    ensures
        digit(s + place(b, i), b, j) == digit(s, b, j),
{
    let p = place(b, j);
    let k = (i - j) as nat;
    lemma_place_positive(b, j);
    lemma_place_add(b, j, k);
    let w = place(b, (k - 1) as nat);
    assert(place(b, k) == b * w);
    assert((s + p * (b * w)) / p == s / p + b * w) by {
        lemma_fundamental_div_mod(s as int, p as int);
        lemma_mod_bound(s as int, p as int);
        let q = (s / p) as int;
        assert(s + p * (b * w) == (q + b * w) * p + s % p) by (nonlinear_arith)
            requires
                s == p * q + s % p,
        ;
        lemma_fundamental_div_mod_converse(
            (s + p * (b * w)) as int,
            p as int,
            q + b * w,
            (s % p) as int,
        );
    }
    lemma_mod_multiples_vanish(w as int, (s / p) as int, b as int);
}

pub proof fn lemma_total_update(ds: Seq<nat>, i: int, d: nat)
    requires
        0 <= i < ds.len(),
    ensures
        total(ds.update(i, d)) == total(ds) - ds[i] + d,
{
    let low = ds.subrange(0, i);
    let high = ds.subrange(i + 1, ds.len() as int);
    assert(ds =~= low + (seq![ds[i]] + high));
    assert(ds.update(i, d) =~= low + (seq![d] + high));
    lemma_total_concat(low, seq![ds[i]] + high);
    lemma_total_concat(low, seq![d] + high);
    lemma_total_concat(seq![ds[i]], high);
    lemma_total_concat(seq![d], high);
    lemma_total_single(ds[i]);
    lemma_total_single(d);
}

/// Lowering a positive digit leaves all other digits alone.
pub proof fn lemma_lower_digit(s: nat, b: nat, i: nat, n: nat)
    requires
        b > 0,
        i < n,
        digit(s, b, i) > 0,
    ensures
        place(b, i) <= s,
        digits((s - place(b, i)) as nat, b, n) =~= digits(s, b, n).update(
            i as int,
            (digit(s, b, i) - 1) as nat,
        ),
        digit_sum((s - place(b, i)) as nat, b, n) + 1 == digit_sum(s, b, n),
        (s - place(b, i)) as nat / place(b, n) == s / place(b, n),
{
    let p = place(b, i);
    lemma_place_positive(b, i);
    let q = s / p;
    let r = s % p;
    lemma_fundamental_div_mod(s as int, p as int);
    lemma_mod_bound(s as int, p as int);
    assert(q > 0) by {
        if q == 0 {
            lemma_small_mod(0, b);
        }
    }
    assert(s >= p && s - p == (q - 1) * p + r) by (nonlinear_arith)
        requires
            s == p * q + r,
            q > 0,
            p > 0,
            r >= 0,
    ;
    let t = (s - p) as nat;
    lemma_fundamental_div_mod_converse(t as int, p as int, q - 1, r as int);
    let d = digit(s, b, i);
    let u = q / b;
    lemma_fundamental_div_mod(q as int, b as int);
    lemma_mod_bound(q as int, b as int);
    lemma_fundamental_div_mod_converse(q - 1, b as int, u as int, d - 1);
    assert(digit(t, b, i) == d - 1);
    lemma_raise_digit(t, b, i, n);
    let ds = digits(s, b, n);
    let dt = digits(t, b, n);
    assert(dt =~= ds.update(i as int, (d - 1) as nat)) by {
        assert(ds == dt.update(i as int, d));
        assert(dt[i as int] == d - 1);
    }
}

} // verus!
