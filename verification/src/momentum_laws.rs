//! The momentum sectors of a ring together.

use vstd::prelude::*;
use vstd::arithmetic::div_mod::*;
use vstd::arithmetic::mul::*;
use crate::basis::Basis;
use crate::fermion::{SpinlessFermionBasis1D, SpinlessFermionBasisBuilder};
use crate::ranking;
use crate::states;
use crate::symmetry::{RingSector, RingSymmetry};
use crate::symmetry;

verus! {

/// How many of the first numbers have a property.
pub open spec fn count(property: spec_fn(int) -> bool, upto: nat) -> nat
    decreases upto,
{
    if upto == 0 {
        0
    } else {
        count(property, (upto - 1) as nat) + (if property(upto - 1) {
            1nat
        } else {
            0
        })
    }
}

/// The sum of the first values.
pub open spec fn sum(values: spec_fn(int) -> nat, upto: nat) -> nat
    decreases upto,
{
    if upto == 0 {
        0
    } else {
        sum(values, (upto - 1) as nat) + values(upto - 1)
    }
}

proof fn lemma_count_same(left: spec_fn(int) -> bool, right: spec_fn(int) -> bool, upto: nat)
    requires
        forall|i: int| 0 <= i < upto ==> #[trigger] left(i) == right(i),
    ensures
        count(left, upto) == count(right, upto),
    decreases upto,
{
    if upto > 0 {
        lemma_count_same(left, right, (upto - 1) as nat);
        assert(left(upto - 1) == right(upto - 1));
    }
}

proof fn lemma_sum_same(left: spec_fn(int) -> nat, right: spec_fn(int) -> nat, upto: nat)
    requires
        forall|i: int| 0 <= i < upto ==> #[trigger] left(i) == right(i),
    ensures
        sum(left, upto) == sum(right, upto),
    decreases upto,
{
    if upto > 0 {
        lemma_sum_same(left, right, (upto - 1) as nat);
        assert(left(upto - 1) == right(upto - 1));
    }
}

proof fn lemma_sum_counted(
    values: spec_fn(int) -> nat,
    property: spec_fn(int) -> bool,
    more: spec_fn(int) -> nat,
    upto: nat,
)
    requires
        forall|i: int|
            0 <= i < upto ==> #[trigger] more(i) == values(i) + (if property(i) {
                1nat
            } else {
                0
            }),
    ensures
        sum(more, upto) == sum(values, upto) + count(property, upto),
    decreases upto,
{
    if upto > 0 {
        lemma_sum_counted(values, property, more, (upto - 1) as nat);
        assert(more(upto - 1) == values(upto - 1) + (if property(upto - 1) {
            1nat
        } else {
            0
        }));
    }
}

/// Counting pairs by their first or by their second number gives the same.
proof fn lemma_counted_twice(property: spec_fn(int, int) -> bool, first: nat, second: nat)
    ensures
        sum(|k: int| count(|i: int| property(k, i), second), first) == sum(
            |i: int| count(|k: int| property(k, i), first),
            second,
        ),
    decreases first,
{
    let rows = |k: int| count(|i: int| property(k, i), second);
    let now = |i: int| count(|k: int| property(k, i), first);
    if first == 0 {
        assert forall|i: int| 0 <= i < second implies #[trigger] now(i) == 0 by {}
        lemma_sum_zero(now, second);
    } else {
        let last = first - 1;
        let before = |i: int| count(|k: int| property(k, i), last as nat);
        let added = |i: int| property(last, i);
        lemma_counted_twice(property, last as nat, second);
        assert forall|i: int| 0 <= i < second implies #[trigger] now(i) == before(i) + (if added(
            i,
        ) {
            1nat
        } else {
            0
        }) by {
            let column = |k: int| property(k, i);
            assert(count(column, first) == count(column, last as nat) + (if column(last) {
                1nat
            } else {
                0
            }));
        }
        lemma_sum_counted(before, added, now, second);
        assert(rows(last) == count(added, second));
    }
}

proof fn lemma_sum_zero(values: spec_fn(int) -> nat, upto: nat)
    requires
        forall|i: int| 0 <= i < upto ==> #[trigger] values(i) == 0,
    ensures
        sum(values, upto) == 0,
    decreases upto,
{
    if upto > 0 {
        lemma_sum_zero(values, (upto - 1) as nat);
        assert(values(upto - 1) == 0);
    }
}

/// One number in each stretch of `q` numbers leaves a given remainder.
proof fn lemma_remainders(q: nat, c: nat, i: nat, j: nat)
    requires
        c < q,
        j <= q,
    ensures
        count(|k: int| k % (q as int) == c, i * q + j) == i + (if j > c {
            1nat
        } else {
            0
        }),
    decreases i, j,
{
    let property = |k: int| k % (q as int) == c;
    if j > 0 {
        lemma_remainders(q, c, i, (j - 1) as nat);
        let at = i * q + j - 1;
        lemma_fundamental_div_mod_converse(at, q as int, i as int, j - 1);
        assert(property(at) == (j - 1 == c));
        assert((i * q + j - 1) as nat == (i * q + (j - 1)) as nat);
    } else if i > 0 {
        lemma_remainders(q, c, (i - 1) as nat, q);
        assert((i - 1) * q + q == i * q) by (nonlinear_arith)
            requires
                i > 0,
        ;
    } else {
        lemma_mul_basics(q as int);
    }
}

/// The symmetry with another momentum.
pub open spec fn at_momentum(ring: RingSymmetry, k: nat) -> RingSymmetry {
    RingSymmetry { momentum: Some(k as usize), ..ring }
}

/// A ring of translations alone, at momentum zero.
pub open spec fn translates(ring: RingSymmetry) -> bool {
    ring.wf() && ring.parity is None && ring.momentum == Some(0usize)
}

spec fn rotation(ring: RingSymmetry, s: nat, t: nat) -> nat {
    ring.act((t, false), s)
}

proof fn lemma_family(ring: RingSymmetry, k: nat)
    requires
        translates(ring),
        k < ring.sites,
    ensures
        at_momentum(ring, k).wf(),
        at_momentum(ring, k).sites == ring.sites,
        at_momentum(ring, k).wave() == k,
        forall|g: (nat, bool)| #[trigger]
            at_momentum(ring, k).element(g) == ring.element(g),
        forall|g: (nat, bool), s: nat| #[trigger]
            at_momentum(ring, k).act(g, s) == ring.act(g, s),
        forall|g: (nat, bool), s: nat| #[trigger]
            at_momentum(ring, k).flips(g, s) == ring.flips(g, s),
{
    ring.lemma_sites();
}

/// Two rotations in succession.
proof fn lemma_steps(ring: RingSymmetry, k: nat, s: nat, a: nat, b: nat)
    requires
        translates(ring),
        k < ring.sites,
        ring.state(s),
        a < ring.sites,
        b < ring.sites,
    ensures
        rotation(ring, rotation(ring, s, a), b) == rotation(
            ring,
            s,
            (a + b) % (ring.sites as nat),
        ),
        at_momentum(ring, k).turn(((a + b) % (ring.sites as nat), false), s) == (at_momentum(
            ring,
            k,
        ).turn((a, false), s) + at_momentum(ring, k).turn((b, false), rotation(ring, s, a))) % (2
            * ring.sites as nat),
        ring.state(rotation(ring, s, a)),
{
    lemma_family(ring, k);
    let own = at_momentum(ring, k);
    assert(own.element((a, false)) && own.element((b, false)));
    let both = own.elements_compose((a, false), (b, false), s);
    assert(own.act(both, s) == own.act((b, false), own.act((a, false), s)));
    ring.lemma_act((a, false), s);
}

/// A rotation that fixes a state, repeated.
proof fn lemma_repeated(ring: RingSymmetry, k: nat, s: nat, m: nat, j: nat)
    requires
        translates(ring),
        k < ring.sites,
        ring.state(s),
        rotation(ring, s, m % (ring.sites as nat)) == s,
    ensures
        rotation(ring, s, (j * m) % (ring.sites as nat)) == s,
        at_momentum(ring, k).turn(((j * m) % (ring.sites as nat), false), s) == (j * at_momentum(
            ring,
            k,
        ).turn((m % (ring.sites as nat), false), s)) % (2 * ring.sites as nat),
    decreases j,
{
    let n = ring.sites as nat;
    let own = at_momentum(ring, k);
    let once = own.turn((m % n, false), s);
    lemma_family(ring, k);
    lemma_mod_bound(m as int, n as int);
    if j == 0 {
        lemma_mul_basics(m as int);
        lemma_mul_basics(once as int);
        lemma_small_mod(0, n);
        lemma_small_mod(0, 2 * n);
        own.lemma_identity(s);
    } else {
        let i = (j - 1) as nat;
        lemma_repeated(ring, k, s, m, i);
        lemma_mod_bound((i * m) as int, n as int);
        lemma_steps(ring, k, s, (i * m) % n, m % n);
        lemma_add_mod_noop((i * m) as int, m as int, n as int);
        lemma_mul_is_distributive_add_other_way(m as int, i as int, 1);
        lemma_mul_basics(m as int);
        assert(i * m + m == j * m) by (nonlinear_arith)
            requires
                j == i + 1,
        ;
        assert(i * once + once == j * once) by (nonlinear_arith)
            requires
                j == i + 1,
        ;
        lemma_mod_bound(
            (2 * own.wave() * (m % n) + (if own.flips((m % n, false), s) {
                n
            } else {
                0
            })) as int,
            2 * n as int,
        );
        lemma_small_mod(once, 2 * n);
        lemma_add_mod_noop((i * once) as int, once as int, 2 * n as int);
    }
}

/// The least number of steps after which a state comes back.
proof fn lemma_period(ring: RingSymmetry, s: nat, from: nat) -> (m: nat)
    requires
        translates(ring),
        ring.state(s),
        1 <= from <= ring.sites,
        forall|t: nat| 0 < t < from ==> #[trigger] rotation(ring, s, t) != s,
    ensures
        from <= m <= ring.sites,
        rotation(ring, s, m % (ring.sites as nat)) == s,
        forall|t: nat| 0 < t < m ==> #[trigger] rotation(ring, s, t) != s,
    decreases ring.sites - from,
{
    let n = ring.sites as nat;
    if from == n {
        lemma_mod_self_0(n as int);
        ring.lemma_identity(s);
        from
    } else if rotation(ring, s, from) == s {
        lemma_small_mod(from, n);
        from
    } else {
        lemma_period(ring, s, from + 1)
    }
}

/// The period of a state.
spec fn is_period(ring: RingSymmetry, s: nat, m: nat) -> bool {
    &&& 1 <= m <= ring.sites
    &&& rotation(ring, s, m % (ring.sites as nat)) == s
    &&& forall|t: nat| 0 < t < m ==> #[trigger] rotation(ring, s, t) != s
}

/// What a rotation makes of a state depends on the remainder by the period.
proof fn lemma_reduced(ring: RingSymmetry, s: nat, m: nat, t: nat)
    requires
        translates(ring),
        ring.state(s),
        is_period(ring, s, m),
        t <= ring.sites,
    ensures
        t % m < m,
        t % m < ring.sites || m == ring.sites,
        rotation(ring, s, t % (ring.sites as nat)) == rotation(
            ring,
            s,
            (t % m) % (ring.sites as nat),
        ),
{
    let n = ring.sites as nat;
    let j = t / m;
    lemma_fundamental_div_mod(t as int, m as int);
    lemma_mod_bound(t as int, m as int);
    lemma_mul_is_commutative(m as int, j as int);
    lemma_repeated(ring, 0, s, m, j);
    let r = t % m;
    lemma_mod_bound((j * m) as int, n as int);
    lemma_small_mod(r, n);
    lemma_steps(ring, 0, s, (j * m) % n, r);
    lemma_add_mod_noop((j * m) as int, r as int, n as int);
}

proof fn lemma_period_divides(ring: RingSymmetry, s: nat, m: nat)
    requires
        translates(ring),
        ring.state(s),
        is_period(ring, s, m),
    ensures
        ring.sites as nat % m == 0,
        ring.sites == m * (ring.sites as nat / m),
        forall|t: nat|
            t < ring.sites && #[trigger] rotation(ring, s, t) == s ==> t % m == 0,
{
    let n = ring.sites as nat;
    lemma_reduced(ring, s, m, n);
    lemma_mod_self_0(n as int);
    ring.lemma_identity(s);
    if n % m > 0 {
        lemma_small_mod(n % m, n);
        assert(rotation(ring, s, n % m) == s);
    }
    lemma_fundamental_div_mod(n as int, m as int);
    assert forall|t: nat|
        t < ring.sites && #[trigger] rotation(ring, s, t) == s implies t % m == 0 by {
        lemma_reduced(ring, s, m, t);
        lemma_small_mod(t, n);
        if t % m > 0 {
            lemma_small_mod(t % m, n);
            assert(rotation(ring, s, t % m) == s);
        }
    }
}

/// The momenta at which a state survives are those with one remainder by the number of
/// rotations that fix the state.
proof fn lemma_surviving_momenta(ring: RingSymmetry, s: nat, m: nat) -> (c: nat)
    requires
        translates(ring),
        ring.state(s),
        is_period(ring, s, m),
    ensures
        ring.sites as nat == m * (ring.sites as nat / m),
        c < ring.sites as nat / m,
        forall|k: int|
            0 <= k < ring.sites ==> #[trigger] at_momentum(ring, k as nat).survives(s) == (k % (
            ring.sites as nat / m) as int == c),
{
    let n = ring.sites as nat;
    let q = n / m;
    lemma_period_divides(ring, s, m);
    assert(q > 0) by (nonlinear_arith)
        requires
            n == m * q,
            n > 0,
    ;
    if m == n {
        assert(q == 1) by (nonlinear_arith)
            requires
                n == n * q,
                n > 0,
        ;
        assert forall|k: int| 0 <= k < n implies #[trigger] at_momentum(
            ring,
            k as nat,
        ).survives(s) == (k % (q as int) == 0) by {
            let own = at_momentum(ring, k as nat);
            lemma_family(ring, k as nat);
            own.lemma_identity(s);
            assert forall|g: (nat, bool)|
                own.element(g) && #[trigger] own.act(g, s) == s implies own.turn(g, s) == 0 by {
                assert(ring.element(g));
                assert(rotation(ring, s, g.0) == s);
                lemma_small_mod(g.0, n);
                assert(g == (0nat, false));
            }
        }
        0
    } else {
        lemma_small_mod(m, n);
        let flip = ring.flips((m, false), s);
        let z = q / 2;
        // going once around the ring gives no phase
        if flip {
            lemma_family(ring, 0);
            lemma_repeated(ring, 0, s, m, q);
            lemma_mul_is_commutative(m as int, q as int);
            lemma_mod_self_0(n as int);
            let own = at_momentum(ring, 0);
            own.lemma_identity(s);
            lemma_mul_basics(m as int);
            assert(2 * 0 * m == 0) by (nonlinear_arith);
            lemma_small_mod(n, 2 * n);
            assert(own.turn((m, false), s) == n);
            assert((q * n) % (2 * n) == 0);
            lemma_even_quotient(q, n);
            lemma_fundamental_div_mod(q as int, 2);
        }
        let c = if flip {
            z
        } else {
            0
        };
        assert forall|k: int| 0 <= k < n implies #[trigger] at_momentum(
            ring,
            k as nat,
        ).survives(s) == (k % (q as int) == c) by {
            let own = at_momentum(ring, k as nat);
            lemma_family(ring, k as nat);
            let once = own.turn((m, false), s);
            assert(once == (2 * k * m + (if flip {
                n as int
            } else {
                0
            })) % (2 * n as int));
            if once == 0 {
                assert forall|g: (nat, bool)|
                    own.element(g) && #[trigger] own.act(g, s) == s implies own.turn(g, s)
                    == 0 by {
                    assert(ring.element(g));
                    assert(rotation(ring, s, g.0) == s);
                    let j = g.0 / m;
                    lemma_fundamental_div_mod(g.0 as int, m as int);
                    lemma_mul_is_commutative(m as int, j as int);
                    lemma_repeated(ring, k as nat, s, m, j);
                    lemma_small_mod(g.0, n);
                    lemma_mul_basics(j as int);
                    lemma_small_mod(0, 2 * n);
                }
            } else {
                assert(own.element((m, false)));
                assert(own.act((m, false), s) == s);
            }
            lemma_phase_remainder(k as nat, m, q, flip);
        }
        c
    }
}

proof fn lemma_even_quotient(q: nat, n: nat)
    requires
        n > 0,
        (q * n) % (2 * n) == 0,
    ensures
        q % 2 == 0,
{
    lemma_truncate_middle(q as int, n as int, 2);
    lemma_mul_is_commutative(q as int, n as int);
    lemma_mul_is_commutative(2, n as int);
    let r = q as int % 2;
    if r != 0 {
        assert(n * r > 0) by (nonlinear_arith)
            requires
                n > 0,
                r > 0,
        ;
    }
}

/// When the phase of one period vanishes.
proof fn lemma_phase_remainder(k: nat, m: nat, q: nat, flip: bool)
    requires
        m > 0,
        q > 0,
        flip ==> q % 2 == 0,
    ensures
        ((2 * k * m + (if flip {
            (m * q) as int
        } else {
            0
        })) % (2 * (m * q) as int) == 0) == (k % q == (if flip {
            q / 2
        } else {
            0
        })),
{
    let z = if flip {
        q / 2
    } else {
        0
    };
    let b = 2 * m;
    let x = k + z;
    assert(2 * k * m + (if flip {
        m * q
    } else {
        0
    }) == b * x) by (nonlinear_arith)
        requires
            b == 2 * m,
            x == k + z,
            flip ==> q == 2 * z,
            !flip ==> z == 0,
    ;
    assert(2 * (m * q) == b * q) by (nonlinear_arith)
        requires
            b == 2 * m,
    ;
    lemma_truncate_middle(x as int, b as int, q as int);
    let r = x % q;
    assert((b * r == 0) == (r == 0)) by (nonlinear_arith)
        requires
            b > 0,
            r >= 0,
    ;
    if flip {
        let low = k % q;
        lemma_mod_bound(k as int, q as int);
        lemma_add_mod_noop(k as int, z as int, q as int);
        lemma_small_mod(z, q);
        if low < z {
            lemma_small_mod((low + z) as nat, q);
        } else {
            lemma_fundamental_div_mod_converse((low + z) as int, q as int, 1, (low + z) - q);
        }
    }
}

/// A state survives at as many momenta as its orbit has states.
pub proof fn orbits_survive_as_often_as_they_are_long(ring: RingSymmetry, s: nat)
    requires
        translates(ring),
        ring.state(s),
    ensures
        ring.orbit(s).finite(),
        count(|k: int| at_momentum(ring, k as nat).survives(s), ring.sites as nat) == ring.orbit(
            s,
        ).len(),
{
    let n = ring.sites as nat;
    let m = lemma_period(ring, s, 1);
    assert(is_period(ring, s, m));
    let c = lemma_surviving_momenta(ring, s, m);
    let q = n / m;
    let survives = |k: int| at_momentum(ring, k as nat).survives(s);
    let remains = |k: int| k % (q as int) == c;
    lemma_count_same(survives, remains, n);
    lemma_remainders(q, c, m, 0);
    lemma_orbit_length(ring, s, m);
}

proof fn lemma_orbit_length(ring: RingSymmetry, s: nat, m: nat)
    requires
        translates(ring),
        ring.state(s),
        is_period(ring, s, m),
    ensures
        ring.orbit(s).finite(),
        ring.orbit(s).len() == m,
{
    let n = ring.sites as nat;
    let list = Seq::new(m, |t: int| rotation(ring, s, t as nat) as u128);
    ring.lemma_identity(s);
    assert forall|t: nat| t < n implies #[trigger] rotation(ring, s, t) <= u128::MAX by {
        assert(ring.element((t, false)));
        ring.lemma_act((t, false), s);
    }
    assert forall|a: int, b: int| 0 <= a < b < list.len() implies list[a] != list[b] by {
        let x = a as nat;
        let y = b as nat;
        assert(rotation(ring, s, x) <= u128::MAX && rotation(ring, s, y) <= u128::MAX);
        if rotation(ring, s, x) == rotation(ring, s, y) {
            if x > 0 {
                let back = (n - x) as nat;
                lemma_steps(ring, 0, s, x, back);
                lemma_steps(ring, 0, s, y, back);
                lemma_mod_self_0(n as int);
                lemma_fundamental_div_mod_converse((y + back) as int, n as int, 1, b - a);
                assert(rotation(ring, s, (b - a) as nat) == s);
            }
        }
    }
    assert(list.no_duplicates());
    assert(list.to_set() =~= ring.orbit(s)) by {
        assert forall|x: u128| list.to_set().contains(x) <==> ring.orbit(s).contains(x) by {
            if list.contains(x) {
                let t = choose|t: int| 0 <= t < list.len() && list[t] == x;
                assert(rotation(ring, s, t as nat) <= u128::MAX);
                assert(ring.element((t as nat, false)));
                assert(ring.act((t as nat, false), s) == x);
            }
            if ring.orbit(s).contains(x) {
                let g = choose|g: (nat, bool)| ring.element(g) && #[trigger] ring.act(g, s) == x;
                let t = g.0;
                lemma_reduced(ring, s, m, t);
                lemma_small_mod(t, n);
                lemma_small_mod(t % m, n);
                assert(rotation(ring, s, t) == rotation(ring, s, t % m));
                assert(list[(t % m) as int] == x);
            }
        }
    }
    list.unique_seq_to_set();
}

/// The least image of a state under the first rotations.
proof fn lemma_least_image(ring: RingSymmetry, s: nat, upto: nat) -> (t: nat)
    requires
        translates(ring),
        1 <= upto <= ring.sites,
    ensures
        t < upto,
        forall|u: nat| u < upto ==> rotation(ring, s, t) <= #[trigger] rotation(ring, s, u),
    decreases upto,
{
    if upto == 1 {
        0
    } else {
        let before = lemma_least_image(ring, s, (upto - 1) as nat);
        let last = (upto - 1) as nat;
        if rotation(ring, s, last) < rotation(ring, s, before) {
            last
        } else {
            before
        }
    }
}

/// The state is the least of its orbit.
pub open spec fn heads(ring: RingSymmetry, x: u128) -> bool {
    ring.is_representative(x as nat, x as nat)
}

/// The states in the orbits of the first listed states that are least in theirs.
spec fn gathered(ring: RingSymmetry, list: Seq<u128>, upto: nat) -> Set<u128>
    decreases upto,
{
    if upto == 0 {
        Set::empty()
    } else {
        let before = gathered(ring, list, (upto - 1) as nat);
        if heads(ring, list[upto - 1]) {
            before.union(ring.orbit(list[upto - 1] as nat))
        } else {
            before
        }
    }
}

pub open spec fn length_of(ring: RingSymmetry, x: u128) -> nat {
    if heads(ring, x) {
        ring.orbit(x as nat).len()
    } else {
        0
    }
}

proof fn lemma_in_gathered(ring: RingSymmetry, list: Seq<u128>, upto: nat, y: u128)
    ensures
        gathered(ring, list, upto).contains(y) <==> exists|j: int|
            0 <= j < upto && heads(ring, #[trigger] list[j]) && ring.orbit(
                list[j] as nat,
            ).contains(y),
    decreases upto,
{
    if upto > 0 {
        lemma_in_gathered(ring, list, (upto - 1) as nat, y);
        if gathered(ring, list, upto).contains(y) {
            if !gathered(ring, list, (upto - 1) as nat).contains(y) {
                assert(heads(ring, list[upto - 1]));
            }
        }
    }
}

/// Two least states of one orbit are the same.
proof fn lemma_one_head(ring: RingSymmetry, first: u128, second: u128, y: u128)
    requires
        translates(ring),
        ring.state(first as nat),
        ring.state(second as nat),
        heads(ring, first),
        heads(ring, second),
        ring.orbit(first as nat).contains(y),
        ring.orbit(second as nat).contains(y),
    ensures
        first == second,
{
    let g = choose|g: (nat, bool)| ring.element(g) && #[trigger] ring.act(g, first as nat) == y;
    let h = choose|h: (nat, bool)| ring.element(h) && #[trigger] ring.act(h, second as nat) == y;
    symmetry::orbits_are_shared(ring, first as nat, g);
    symmetry::orbits_are_shared(ring, second as nat, h);
    assert(ring.is_representative(y as nat, first as nat));
    assert(ring.is_representative(y as nat, second as nat));
    let a = choose|a: (nat, bool)| ring.element(a) && #[trigger] ring.act(a, y as nat) == first;
    let b = choose|b: (nat, bool)| ring.element(b) && #[trigger] ring.act(b, y as nat) == second;
    assert(first <= ring.act(b, y as nat));
    assert(second <= ring.act(a, y as nat));
}

proof fn lemma_gathered_count(ring: RingSymmetry, list: Seq<u128>, upto: nat)
    requires
        translates(ring),
        states::ascending(list),
        symmetry::encodable(list, ring.base as nat, ring.sites as nat),
        upto <= list.len(),
    ensures
        gathered(ring, list, upto).finite(),
        gathered(ring, list, upto).len() == sum(|i: int| length_of(ring, list[i]), upto),
    decreases upto,
{
    let lengths = |i: int| length_of(ring, list[i]);
    if upto > 0 {
        let at = upto - 1;
        let x = list[at];
        lemma_gathered_count(ring, list, at as nat);
        assert(list.contains(x));
        if heads(ring, x) {
            let before = gathered(ring, list, at as nat);
            let orbit = ring.orbit(x as nat);
            orbits_survive_as_often_as_they_are_long(ring, x as nat);
            assert(before.disjoint(orbit)) by {
                assert forall|y: u128| #[trigger] before.contains(y) implies !orbit.contains(
                    y,
                ) by {
                    lemma_in_gathered(ring, list, at as nat, y);
                    let j = choose|j: int|
                        0 <= j < at && heads(ring, #[trigger] list[j]) && ring.orbit(
                            list[j] as nat,
                        ).contains(y);
                    assert(list.contains(list[j]));
                    if orbit.contains(y) {
                        lemma_one_head(ring, list[j], x, y);
                        assert(list[j] < list[at]);
                    }
                }
            }
            vstd::set_lib::lemma_set_disjoint_lens(before, orbit);
        }
        assert(lengths(at) == length_of(ring, x));
    }
}

/// The lengths of the orbits of a closed list add up to its length.
pub proof fn orbits_fill_closed_lists(ring: RingSymmetry, list: Seq<u128>)
    requires
        translates(ring),
        states::ascending(list),
        symmetry::encodable(list, ring.base as nat, ring.sites as nat),
        symmetry::closed_under(ring, list),
    ensures
        sum(|i: int| length_of(ring, list[i]), list.len()) == list.len(),
{
    lemma_gathered_count(ring, list, list.len());
    let all = gathered(ring, list, list.len());
    assert(all =~= list.to_set()) by {
        assert forall|y: u128| all.contains(y) <==> list.to_set().contains(y) by {
            lemma_in_gathered(ring, list, list.len(), y);
            if all.contains(y) {
                let j = choose|j: int|
                    0 <= j < list.len() && heads(ring, #[trigger] list[j]) && ring.orbit(
                        list[j] as nat,
                    ).contains(y);
                let g = choose|g: (nat, bool)|
                    ring.element(g) && #[trigger] ring.act(g, list[j] as nat) == y;
                assert(list.contains(list[j]));
                assert(list.contains(ring.act(g, list[j] as nat) as u128));
            }
            if list.contains(y) {
                let s = y as nat;
                let t = lemma_least_image(ring, s, ring.sites as nat);
                let g = (t, false);
                assert(ring.element(g));
                let r = ring.act(g, s);
                assert(ring.is_representative(s, r)) by {
                    assert forall|h: (nat, bool)| ring.element(h) implies r <= #[trigger] ring.act(
                        h,
                        s,
                    ) by {
                        assert(h == (h.0, false));
                        assert(rotation(ring, s, t) <= rotation(ring, s, h.0));
                    }
                }
                symmetry::orbits_are_shared(ring, s, g);
                assert(ring.is_representative(r, r));
                assert(list.contains(r as u128));
                ring.lemma_act(g, s);
                ring.lemma_sites();
                let j = choose|j: int| 0 <= j < list.len() && list[j] == r as u128;
                ring.lemma_identity(s);
                assert(ring.orbit(s).contains(y)) by {
                    assert(ring.act((0, false), s) == y);
                }
                assert(heads(ring, list[j]));
            }
        }
    }
    assert(list.no_duplicates());
    list.unique_seq_to_set();
}

/// The listed states with a property among the first ones.
spec fn picked(list: Seq<u128>, property: spec_fn(int) -> bool, upto: nat) -> Seq<u128>
    decreases upto,
{
    if upto == 0 {
        Seq::empty()
    } else {
        let before = picked(list, property, (upto - 1) as nat);
        if property(upto - 1) {
            before.push(list[upto - 1])
        } else {
            before
        }
    }
}

proof fn lemma_picked(list: Seq<u128>, property: spec_fn(int) -> bool, upto: nat)
    requires
        states::ascending(list),
        upto <= list.len(),
    ensures
        picked(list, property, upto).len() == count(property, upto),
        picked(list, property, upto).no_duplicates(),
        forall|x: u128| #[trigger]
            picked(list, property, upto).contains(x) <==> exists|i: int|
                0 <= i < upto && property(i) && #[trigger] list[i] == x,
    decreases upto,
{
    if upto > 0 {
        let at = upto - 1;
        let before = picked(list, property, at as nat);
        let now = picked(list, property, upto);
        lemma_picked(list, property, at as nat);
        if property(at) {
            states::lemma_contains_push(before, list[at]);
            assert(!before.contains(list[at])) by {
                if before.contains(list[at]) {
                    let i = choose|i: int|
                        0 <= i < at && property(i) && #[trigger] list[i] == list[at];
                    assert(list[i] < list[at]);
                }
            }
        }
        assert forall|x: u128| #[trigger] now.contains(x) <==> exists|i: int|
            0 <= i < upto && property(i) && #[trigger] list[i] == x by {
            if now.contains(x) && before.contains(x) {
                let i = choose|i: int| 0 <= i < at && property(i) && #[trigger] list[i] == x;
                assert(list[i] == x);
            }
            if exists|i: int| 0 <= i < upto && property(i) && #[trigger] list[i] == x {
                let i = choose|i: int| 0 <= i < upto && property(i) && #[trigger] list[i] == x;
                if i < at {
                    assert(before.contains(x));
                }
            }
        }
    }
}

/// The number of states of a momentum sector, nothing where the sector is empty.
pub open spec fn sector_size(
    ring: RingSymmetry,
    total: Option<usize>,
    k: nat,
    sector: Option<RingSector>,
) -> bool {
    match sector {
        Some(found) => found.covers(at_momentum(ring, k), total),
        None => forall|x: u128| #[trigger]
            states::in_sector(x, ring.base as nat, ring.sites as nat, total) ==> !at_momentum(
                ring,
                k,
            ).survives(x as nat),
    }
}

pub open spec fn size_of_sector(sector: Option<RingSector>) -> nat {
    match sector {
        Some(found) => found.states@.len(),
        None => 0,
    }
}

/// The sectors of all momenta of a ring have together as many states as the ring.
pub proof fn momentum_sectors_add_up(
    ring: RingSymmetry,
    list: Seq<u128>,
    total: Option<usize>,
    sectors: Seq<Option<RingSector>>,
)
    requires
        translates(ring),
        states::lists_sector(list, ring.base as nat, ring.sites as nat, total),
        sectors.len() == ring.sites,
        forall|k: int|
            0 <= k < sectors.len() ==> sector_size(ring, total, k as nat, #[trigger] sectors[k]),
    ensures
        sum(|k: int| size_of_sector(sectors[k]), ring.sites as nat) == list.len(),
{
    let n = ring.sites as nat;
    let b = ring.base as nat;
    symmetry::sectors_are_closed(ring, list, total);
    let listed = |k: int, i: int|
        heads(ring, list[i]) && at_momentum(ring, k as nat).survives(list[i] as nat);
    let sizes = |k: int| size_of_sector(sectors[k]);
    let rows = |k: int| count(|i: int| listed(k, i), list.len());
    let columns = |i: int| count(|k: int| listed(k, i), n);
    let lengths = |i: int| length_of(ring, list[i]);
    assert forall|k: int| 0 <= k < n implies #[trigger] sizes(k) == rows(k) by {
        let own = at_momentum(ring, k as nat);
        lemma_family(ring, k as nat);
        let property = |i: int| listed(k, i);
        let part = picked(list, property, list.len());
        lemma_picked(list, property, list.len());
        assert(sector_size(ring, total, k as nat, sectors[k]));
        match sectors[k] {
            Some(found) => {
                let states = found.states@;
                assert(states.no_duplicates());
                assert(part.to_set() =~= states.to_set()) by {
                    assert forall|x: u128| part.to_set().contains(x)
                        <==> states.to_set().contains(x) by {
                        lemma_same_heads(ring, k as nat, x);
                        assert(states.contains(x) <==> states::in_sector(x, b, n, total)
                            && own.is_representative(x as nat, x as nat) && own.survives(
                            x as nat,
                        ));
                        assert(list.contains(x) <==> states::in_sector(x, b, n, total));
                        if part.contains(x) {
                            let i = choose|i: int|
                                0 <= i < list.len() && property(i) && #[trigger] list[i] == x;
                            assert(list.contains(x));
                        }
                        if states.contains(x) {
                            let i = choose|i: int| 0 <= i < list.len() && list[i] == x;
                            assert(property(i) && list[i] == x);
                        }
                    }
                }
                part.unique_seq_to_set();
                states.unique_seq_to_set();
            },
            None => {
                if part.len() > 0 {
                    let x = part[0];
                    assert(part.contains(x));
                    let i = choose|i: int|
                        0 <= i < list.len() && property(i) && #[trigger] list[i] == x;
                    assert(list.contains(x));
                    assert(states::in_sector(x, b, n, total));
                }
            },
        }
    }
    lemma_sum_same(sizes, rows, n);
    lemma_counted_twice(listed, n, list.len());
    assert forall|i: int| 0 <= i < list.len() implies #[trigger] columns(i) == lengths(i) by {
        let x = list[i];
        assert(list.contains(x));
        let survives = |k: int| at_momentum(ring, k as nat).survives(x as nat);
        let both = |k: int| listed(k, i);
        if heads(ring, x) {
            orbits_survive_as_often_as_they_are_long(ring, x as nat);
            lemma_count_same(both, survives, n);
        } else {
            lemma_count_none(both, n);
        }
    }
    lemma_sum_same(columns, lengths, list.len());
    orbits_fill_closed_lists(ring, list);
}

proof fn lemma_count_none(property: spec_fn(int) -> bool, upto: nat)
    requires
        forall|i: int| 0 <= i < upto ==> !#[trigger] property(i),
    ensures
        count(property, upto) == 0,
    decreases upto,
{
    if upto > 0 {
        lemma_count_none(property, (upto - 1) as nat);
        assert(!property(upto - 1));
    }
}

/// The least states of the orbits are the same at all momenta.
proof fn lemma_same_heads(ring: RingSymmetry, k: nat, x: u128)
    requires
        translates(ring),
        k < ring.sites,
    ensures
        at_momentum(ring, k).is_representative(x as nat, x as nat) == heads(ring, x),
{
    let own = at_momentum(ring, k);
    lemma_family(ring, k);
    let s = x as nat;
    if own.is_representative(s, s) {
        let g = choose|g: (nat, bool)| own.element(g) && #[trigger] own.act(g, s) == s;
        assert(ring.element(g) && ring.act(g, s) == s);
        assert forall|h: (nat, bool)| ring.element(h) implies s <= #[trigger] ring.act(h, s) by {
            assert(own.element(h) && s <= own.act(h, s));
        }
    }
    if ring.is_representative(s, s) {
        let g = choose|g: (nat, bool)| ring.element(g) && #[trigger] ring.act(g, s) == s;
        assert(own.element(g) && own.act(g, s) == s);
        assert forall|h: (nat, bool)| own.element(h) implies s <= #[trigger] own.act(h, s) by {
            assert(ring.element(h) && s <= ring.act(h, s));
        }
    }
}

/// A basis of a momentum sector of fermions with a number of states.
pub open spec fn is_fermion_basis(
    basis: SpinlessFermionBasis1D,
    sites: usize,
    particles: usize,
    k: int,
    size: nat,
) -> bool {
    &&& basis.wf()
    &&& basis.spec_sites() == sites
    &&& basis.spec_particles() == Some(particles)
    &&& basis.ring() == symmetry::fermion_symmetry(sites, Some(k as i32))
    &&& basis.listed().len() == size
}

/// The size of the momentum sector that a builder of fermion bases makes.
pub open spec fn built_size(sites: usize, particles: usize, k: int, size: nat) -> bool {
    ||| exists|basis: SpinlessFermionBasis1D| #[trigger]
        is_fermion_basis(basis, sites, particles, k, size)
    ||| size == 0 && (SpinlessFermionBasisBuilder {
        sites,
        particles: Some(particles),
        momentum: Some(k as i32),
    }).empty()
}

/// The momentum sectors of a ring of fermions, the empty ones counted as none, have
/// together as many states as there are ways to place the particles.
pub proof fn fermion_momentum_sectors_add_up(
    sites: usize,
    particles: usize,
    list: Seq<u128>,
    sizes: Seq<nat>,
)
    requires
        0 < sites <= 128,
        particles <= sites,
        states::lists_sector(list, 2, sites as nat, Some(particles)),
        sizes.len() == sites,
        forall|k: int|
            0 <= k < sites ==> built_size(sites, particles, k, #[trigger] sizes[k]),
    ensures
        sum(|k: int| sizes[k], sites as nat) == ranking::choose_count(
            sites as nat,
            particles as nat,
        ),
{
    let ring = symmetry::fermion_symmetry(sites, Some(0i32));
    states::lemma_power_of_two(sites);
    lemma_small_mod(0, sites as nat);
    let total = Some(particles);
    let sectors = Seq::new(
        sites as nat,
        |k: int| fermion_sector(sites, particles, k, sizes[k]),
    );
    assert forall|k: int| 0 <= k < sectors.len() implies sector_size(
        ring,
        total,
        k as nat,
        #[trigger] sectors[k],
    ) && size_of_sector(sectors[k]) == sizes[k] by {
        assert(built_size(sites, particles, k, sizes[k]));
        lemma_small_mod(k as nat, sites as nat);
        assert(symmetry::fermion_symmetry(sites, Some(k as i32)) == at_momentum(ring, k as nat));
        if has_fermion_basis(sites, particles, k, sizes[k]) {
            let basis = fermion_basis(sites, particles, k, sizes[k]);
            assert(basis.wf());
            assert(sectors[k] == Some(basis.spec_sector()));
        } else {
            assert(sectors[k] is None);
        }
    }
    momentum_sectors_add_up(ring, list, total, sectors);
    let left = |k: int| size_of_sector(sectors[k]);
    let right = |k: int| sizes[k];
    lemma_sum_same(left, right, sites as nat);
    ranking::rank_is_position(list, sites as nat, particles);
}

spec fn has_fermion_basis(sites: usize, particles: usize, k: int, size: nat) -> bool {
    exists|basis: SpinlessFermionBasis1D| #[trigger]
        is_fermion_basis(basis, sites, particles, k, size)
}

spec fn fermion_basis(
    sites: usize,
    particles: usize,
    k: int,
    size: nat,
) -> SpinlessFermionBasis1D {
    choose|basis: SpinlessFermionBasis1D| #[trigger]
        is_fermion_basis(basis, sites, particles, k, size)
}

spec fn fermion_sector(sites: usize, particles: usize, k: int, size: nat) -> Option<RingSector> {
    if has_fermion_basis(sites, particles, k, size) {
        Some(fermion_basis(sites, particles, k, size).spec_sector())
    } else {
        None
    }
}

} // verus!
