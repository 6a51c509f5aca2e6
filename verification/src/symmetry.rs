//! One-dimensional symmetry sectors of a ring: orbits, representatives and phases.
//!
//! A phase is kept exactly, as a number of half steps: `turn` stands for the
//! complex number `exp(-2 pi i turn / (2 sites))`.

use vstd::prelude::*;
use vstd::arithmetic::mul::*;
use vstd::arithmetic::div_mod::*;
use crate::error::{QmbedError, Result};
use crate::lattice;
use crate::radix;
use crate::states;

verus! {

/// Translations (when a momentum is selected) and reflections (when a parity is
/// selected) of a ring, with the character of the selected sector.
#[derive(Clone, Copy, Debug)]
pub struct RingSymmetry {
    pub sites: usize,
    pub base: u128,
    pub momentum: Option<usize>,
    pub parity: Option<i8>,
    pub fermionic: bool,
}

/// Where a state lies in its symmetry orbit.
#[derive(Clone, Copy, Debug, PartialEq, Eq, Structural)]
pub struct SymmetryImage {
    /// The smallest state of the orbit.
    pub representative: u128,
    /// The phase of the state relative to the representative, in half steps.
    pub turn: usize,
    /// The number of states in the orbit.
    pub orbit_size: usize,
}

impl RingSymmetry {
    /// The character is one-dimensional and all states are encodable.
    pub open spec fn wf(self) -> bool {
        &&& self.sites > 0
        &&& self.base >= 2
        &&& radix::place(self.base as nat, self.sites as nat) <= u128::MAX + 1
        &&& self.momentum matches Some(k) ==> k < self.sites
        &&& self.parity matches Some(sign) ==> (sign == 1 || sign == -1) && !self.fermionic
        &&& self.parity is Some && self.momentum is Some ==> (self.wave() == 0 || 2 * self.wave()
            == self.sites)
        &&& self.fermionic ==> self.base == 2
    }

    /// The selected momentum, in units of one step around the ring.
    pub open spec fn wave(self) -> nat {
        match self.momentum {
            Some(k) => k as nat,
            None => 0,
        }
    }

    /// The number of translations in the group.
    pub open spec fn translations(self) -> nat {
        if self.momentum is Some {
            self.sites as nat
        } else {
            1
        }
    }

    /// A group element: a translation, possibly followed by the reflection.
    pub open spec fn element(self, g: (nat, bool)) -> bool {
        g.0 < self.translations() && (g.1 ==> self.parity is Some)
    }

    /// The encoded states of the ring.
    pub open spec fn state(self, s: nat) -> bool {
        s < radix::place(self.base as nat, self.sites as nat)
    }

    /// The image of a state under a group element.
    pub open spec fn act(self, g: (nat, bool), s: nat) -> nat {
        let moved = lattice::rotated_state(s, g.0, self.sites as nat, self.base as nat);
        if g.1 {
            lattice::reflected_state(moved, self.sites as nat, self.base as nat)
        } else {
            moved
        }
    }

    /// The particles on the highest `t` sites, which a translation by `t` carries
    /// over the end of the ring.
    pub open spec fn wrapped(self, s: nat, t: nat) -> nat {
        radix::total(
            radix::digits(s, self.base as nat, self.sites as nat).subrange(
                self.sites - t,
                self.sites as int,
            ),
        )
    }

    /// Whether the wrapped fermions pass the others an odd number of times.
    pub open spec fn exchanges_oddly(self, s: nat, t: nat) -> bool {
        let retained = radix::digit_sum(s, self.base as nat, self.sites as nat) - self.wrapped(
            s,
            t,
        );
        (self.wrapped(s, t) * retained) % 2 == 1
    }

    /// Whether the element multiplies the state by minus one, apart from the
    /// momentum phase.
    pub open spec fn flips(self, g: (nat, bool), s: nat) -> bool {
        (g.1 && self.parity == Some(-1i8)) || (self.fermionic && self.exchanges_oddly(s, g.0))
    }

    /// The phase with which the element acts on the state, in half steps.
    pub open spec fn turn(self, g: (nat, bool), s: nat) -> nat {
        phase_turn(self.wave(), g.0, self.flips(g, s), self.sites as nat)
    }

    /// `r` is the smallest image of `s`.
    pub open spec fn is_representative(self, s: nat, r: nat) -> bool {
        &&& exists|g: (nat, bool)| self.element(g) && #[trigger] self.act(g, s) == r
        &&& forall|g: (nat, bool)| self.element(g) ==> r <= #[trigger] self.act(g, s)
    }

    /// No element that fixes the state gives it a phase, so that the sum over the
    /// group does not vanish on it.
    pub open spec fn survives(self, s: nat) -> bool {
        forall|g: (nat, bool)|
            self.element(g) && #[trigger] self.act(g, s) == s ==> self.turn(g, s) == 0
    }

    /// All images of a state.
    pub open spec fn orbit(self, s: nat) -> Set<u128> {
        Set::new(|x: u128| exists|g: (nat, bool)| self.element(g) && #[trigger] self.act(g, s) == x)
    }

    /// The element in place `i` of the enumeration of the group.
    pub open spec fn element_at(self, i: int) -> (nat, bool) {
        if self.parity is Some {
            ((i / 2) as nat, i % 2 == 1)
        } else {
            (i as nat, false)
        }
    }

    /// The number of group elements.
    pub open spec fn order(self) -> nat {
        if self.parity is Some {
            2 * self.translations()
        } else {
            self.translations()
        }
    }

    pub proof fn lemma_elements(self)
        requires
            self.wf(),
        ensures
            forall|i: int| 0 <= i < self.order() ==> self.element(#[trigger] self.element_at(i)),
            forall|g: (nat, bool)| #[trigger]
                self.element(g) ==> exists|i: int|
                    0 <= i < self.order() && g == #[trigger] self.element_at(i),
    {
        assert forall|g: (nat, bool)| #[trigger] self.element(g) implies exists|i: int|
            0 <= i < self.order() && g == #[trigger] self.element_at(i) by {
            let i = if self.parity is Some {
                2 * g.0 + (if g.1 {
                    1int
                } else {
                    0int
                })
            } else {
                g.0 as int
            };
            assert(g == self.element_at(i));
        }
    }

    pub proof fn lemma_sites(self)
        requires
            self.wf(),
        ensures
            self.sites <= 128,
    {
        if self.sites > 128 {
            states::lemma_power_of_two(128);
            radix::lemma_place_strict(2, 128, self.sites as nat);
            lemma_place_base(2, self.base as nat, self.sites as nat);
        }
    }

    pub proof fn lemma_act(self, g: (nat, bool), s: nat)
        requires
            self.wf(),
            self.element(g),
        ensures
            self.state(self.act(g, s)),
            radix::digits(self.act(g, s), self.base as nat, self.sites as nat) == ({
                let moved = lattice::rotated(
                    radix::digits(s, self.base as nat, self.sites as nat),
                    g.0,
                );
                if g.1 {
                    moved.reverse()
                } else {
                    moved
                }
            }),
            radix::digit_sum(self.act(g, s), self.base as nat, self.sites as nat)
                == radix::digit_sum(s, self.base as nat, self.sites as nat),
    {
        let n = self.sites as nat;
        let b = self.base as nat;
        lattice::lemma_rotated_state_digits(s, g.0, n, b);
        lattice::lattice_maps_keep_occupation(s, g.0, n, b);
        let moved = lattice::rotated_state(s, g.0, n, b);
        lattice::lemma_reflected_state_digits(moved, n, b);
        lattice::lattice_maps_keep_occupation(moved, 0, n, b);
    }

    pub proof fn lemma_identity(self, s: nat)
        requires
            self.wf(),
            self.state(s),
        ensures
            self.element((0, false)),
            self.act((0, false), s) == s,
            self.turn((0, false), s) == 0,
    {
        let n = self.sites as nat;
        let ds = radix::digits(s, self.base as nat, n);
        assert(lattice::rotated(ds, 0) =~= ds);
        radix::lemma_value_of_digits(s, self.base as nat, n);
        assert(ds.subrange(n as int, n as int) =~= Seq::<nat>::empty());
        assert(self.wrapped(s, 0) == 0);
        lemma_mul_basics(radix::digit_sum(s, self.base as nat, n) as int);
        lemma_mul_basics((2 * self.wave()) as int);
        lemma_small_mod(0, 2 * n);
    }

    /// Two elements in succession act like one element of the group, with the
    /// phases multiplied.
    pub proof fn elements_compose(self, g: (nat, bool), h: (nat, bool), s: nat) -> (k: (nat, bool))
        requires
            self.wf(),
            self.state(s),
            self.element(g),
            self.element(h),
        ensures
            self.element(k),
            self.act(k, s) == self.act(h, self.act(g, s)),
            self.turn(k, s) == (self.turn(g, s) + self.turn(h, self.act(g, s))) % (2
                * self.sites as nat),
            !g.1 && !h.1 ==> k == ((g.0 + h.0) % self.sites as nat, false),
    {
        let n = self.sites as nat;
        let b = self.base as nat;
        let w = self.wave();
        let mid = self.act(g, s);
        let rot = lattice::rotated_state(s, g.0, n, b);
        if !g.1 {
            lattice::translations_compose(s, g.0, h.0, n, b);
            let t = (g.0 + h.0) % n;
            lemma_fundamental_div_mod((g.0 + h.0) as int, n as int);
            lemma_mod_bound((g.0 + h.0) as int, n as int);
            if self.momentum is None {
                lemma_small_mod(0, n);
            }
            let k = (t, h.1);
            if self.fermionic {
                self.lemma_exchange_cocycle(s, g.0, h.0);
            }
            lemma_turn_sum(
                w,
                g.0,
                h.0,
                t,
                self.flips(g, s),
                self.flips(h, mid),
                self.flips(k, s),
                n,
            );
            k
        } else {
            // reflect(rotate(s, a)) rotated by c is reflect(rotate(s, a - c))
            let c = (n - h.0) as nat % n;
            lattice::lemma_rotated_state_digits(s, g.0, n, b);
            assert(c < n) by {
                lemma_mod_bound(n - h.0, n as int);
            }
            lattice::reflection_inverts_translations(rot, c, n, b);
            assert((n - c) as nat % n == h.0) by {
                if h.0 == 0 {
                    lemma_mod_self_0(n as int);
                } else {
                    lemma_small_mod((n - h.0) as nat, n);
                    lemma_small_mod(h.0, n);
                }
            }
            lattice::translations_compose(s, g.0, c, n, b);
            let t = (g.0 + c) % n;
            lemma_mod_bound((g.0 + c) as int, n as int);
            if self.momentum is None {
                lemma_mod_self_0(n as int);
                lemma_small_mod(0, n);
            }
            let back = lattice::rotated_state(s, t, n, b);
            lattice::lemma_rotated_state_digits(s, t, n, b);
            lattice::reflection_involution(back, n, b);
            let k = (t, !h.1);
            assert(lattice::rotated_state(mid, h.0, n, b) == lattice::reflected_state(back, n, b));
            lemma_turn_difference(
                w,
                g.0,
                h.0,
                t,
                self.flips(g, s),
                self.flips(h, mid),
                self.flips(k, s),
                n,
            );
            k
        }
    }

    /// Every element can be undone.
    pub proof fn elements_invert(self, g: (nat, bool), s: nat) -> (h: (nat, bool))
        requires
            self.wf(),
            self.state(s),
            self.element(g),
        ensures
            self.element(h),
            self.act(h, self.act(g, s)) == s,
            (self.turn(g, s) + self.turn(h, self.act(g, s))) % (2 * self.sites as nat) == 0,
    {
        let n = self.sites as nat;
        let h = if g.1 {
            g
        } else {
            ((n - g.0) as nat % n, false)
        };
        if !g.1 {
            if g.0 == 0 {
                lemma_mod_self_0(n as int);
            } else {
                lemma_small_mod((n - g.0) as nat, n);
            }
        }
        let k = self.elements_compose(g, h, s);
        if g.1 {
            // the composite is a translation that fixes every state
            let b = self.base as nat;
            let rot = lattice::rotated_state(s, g.0, n, b);
            lattice::lemma_rotated_state_digits(s, g.0, n, b);
            lattice::reflection_inverts_translations(s, g.0, n, b);
            let mid = self.act(g, s);
            let r = lattice::reflected_state(s, n, b);
            let c = (n - g.0) as nat % n;
            lemma_mod_bound(n - g.0, n as int);
            lattice::translations_compose(r, c, g.0, n, b);
            assert((c + g.0) % n == 0) by {
                if g.0 == 0 {
                    lemma_mod_self_0(n as int);
                    lemma_small_mod(0, n);
                } else {
                    lemma_small_mod((n - g.0) as nat, n);
                    lemma_mod_self_0(n as int);
                }
            }
            let ds = radix::digits(r, b, n);
            lattice::lemma_reflected_state_digits(s, n, b);
            assert(lattice::rotated(ds, 0) =~= ds);
            radix::lemma_value_of_digits(r, b, n);
            lattice::reflection_involution(s, n, b);
            assert(self.act(h, mid) == s);
            lemma_turn_difference(
                self.wave(),
                g.0,
                g.0,
                0,
                self.flips(g, s),
                self.flips(g, mid),
                false,
                n,
            );
            lemma_mul_basics((2 * self.wave()) as int);
            lemma_small_mod(0, 2 * n);
        } else {
            assert((g.0 + h.0) % n == 0) by {
                if g.0 == 0 {
                    lemma_small_mod(0, n);
                } else {
                    lemma_mod_self_0(n as int);
                }
            }
            assert(k == (0nat, false));
            self.lemma_identity(s);
        }
        h
    }

    /// Fermion exchange signs multiply along successive translations.
    proof fn lemma_exchange_cocycle(self, s: nat, a: nat, c: nat)
        requires
            self.wf(),
            self.fermionic,
            a < self.sites,
            c < self.sites,
        ensures
            self.exchanges_oddly(s, (a + c) % self.sites as nat) == (self.exchanges_oddly(s, a)
                != self.exchanges_oddly(
                lattice::rotated_state(s, a, self.sites as nat, self.base as nat),
                c,
            )),
    {
        let n = self.sites as nat;
        let b = self.base as nat;
        let ds = radix::digits(s, b, n);
        let moved = lattice::rotated_state(s, a, n, b);
        let rd = lattice::rotated(ds, a);
        lattice::lemma_rotated_state_digits(s, a, n, b);
        lattice::lattice_maps_keep_occupation(s, a, n, b);
        lattice::lemma_rotated_index(ds, a);
        let all = radix::total(ds);
        let w1 = self.wrapped(s, a);
        let w2 = self.wrapped(moved, c);
        let t = (a + c) % n;
        let w = self.wrapped(s, t);
        let upper = ds.subrange(n - a, n as int);
        let lower = ds.subrange(0, n - a);
        assert(ds =~= lower + upper);
        radix::lemma_total_concat(lower, upper);
        if a + c < n {
            lemma_small_mod(a + c, n);
            let middle = ds.subrange(n - a - c, n - a);
            assert(rd.subrange(n - c, n as int) =~= middle);
            assert(ds.subrange(n - t, n as int) =~= middle + upper);
            radix::lemma_total_concat(middle, upper);
            assert(w == w1 + w2);
        } else {
            lemma_fundamental_div_mod_converse((a + c) as int, n as int, 1, a + c - n);
            let top = ds.subrange(n - t, n as int);
            assert(rd.subrange(n - c, n as int) =~= top + lower);
            radix::lemma_total_concat(top, lower);
            assert(w + all == w1 + w2);
        }
        lemma_exchange_parity(w1, w2, w, all);
    }

    proof fn lemma_wrapped_bound(self, s: nat, t: nat)
        requires
            t <= self.sites,
        ensures
            self.wrapped(s, t) <= radix::digit_sum(s, self.base as nat, self.sites as nat),
    {
        let n = self.sites as nat;
        let ds = radix::digits(s, self.base as nat, n);
        let lower = ds.subrange(0, n - t);
        let upper = ds.subrange(n - t, n as int);
        assert(ds =~= lower + upper);
        radix::lemma_total_concat(lower, upper);
    }
}

/// The phase of a translation by `t` at momentum `wave`, in half steps.
pub open spec fn phase_turn(wave: nat, t: nat, flip: bool, n: nat) -> nat {
    (2 * wave * t + (if flip {
        n
    } else {
        0
    })) % (2 * n)
}

pub proof fn lemma_place_base(a: nat, b: nat, n: nat)
    requires
        0 < a <= b,
    ensures
        radix::place(a, n) <= radix::place(b, n),
    decreases n,
{
    if n > 0 {
        lemma_place_base(a, b, (n - 1) as nat);
        let p = radix::place(a, (n - 1) as nat) as int;
        let q = radix::place(b, (n - 1) as nat) as int;
        assert(a * p <= b * q) by (nonlinear_arith)
            requires
                0 < a <= b,
                0 <= p <= q,
        ;
    }
}

proof fn lemma_product_parity(x: int, y: int)
    ensures
        (x * y) % 2 == 1 <==> x % 2 == 1 && y % 2 == 1,
{
    lemma_mul_mod_noop(x, y, 2);
    lemma_fundamental_div_mod(x, 2);
    let r = x % 2;
    let s = y % 2;
    assert(r == 0 || r == 1);
    assert(s == 0 || s == 1);
    if r == 0 {
        assert(r * s == 0) by {
            lemma_mul_basics(s);
        }
    } else if s == 0 {
        assert(r * s == 0) by {
            lemma_mul_basics(r);
        }
    } else {
        assert(r * s == 1) by {
            lemma_mul_basics(1);
        }
    }
}

proof fn lemma_exchange_parity(w1: nat, w2: nat, w: nat, all: nat)
    requires
        w == w1 + w2 || w + all == w1 + w2,
    ensures
        ((w * (all - w)) % 2 == 1) == (((w1 * (all - w1)) % 2 == 1) != ((w2 * (all - w2)) % 2
            == 1)),
{
    lemma_product_parity(w1 as int, all - w1);
    lemma_product_parity(w2 as int, all - w2);
    lemma_product_parity(w as int, all - w);
}

spec fn flip_steps(flip: bool, n: nat) -> int {
    if flip {
        n as int
    } else {
        0
    }
}

/// Phases of successive translations add up.
proof fn lemma_turn_sum(
    w: nat,
    a: nat,
    c: nat,
    t: nat,
    fa: bool,
    fc: bool,
    ft: bool,
    n: nat,
)
    requires
        n > 0,
        t == (a + c) % n,
        ft == (fa != fc),
    ensures
        phase_turn(w, t, ft, n) == (phase_turn(w, a, fa, n) + phase_turn(w, c, fc, n)) % (2 * n),
{
    let m = (2 * n) as int;
    let q = (a + c) / n;
    lemma_fundamental_div_mod((a + c) as int, n as int);
    let x = 2 * w * a + flip_steps(fa, n);
    let y = 2 * w * c + flip_steps(fc, n);
    let z = 2 * w * t + flip_steps(ft, n);
    lemma_add_mod_noop(x, y, m);
    let carry: int = if fa && fc {
        1
    } else {
        0
    };
    assert(x + y == z + m * (w * q + carry)) by {
        assert(2 * w * a + 2 * w * c == 2 * w * t + (2 * n) * (w * q)) by (nonlinear_arith)
            requires
                a + c == n * q + t,
        ;
        assert((2 * n) * (w * q + carry) == (2 * n) * (w * q) + (2 * n) * carry)
            by (nonlinear_arith);
    }
    lemma_mod_multiples_vanish(w * q + carry, z, m);
}

/// At zero and at half the ring's momentum, phases of opposite translations add up
/// as well.
proof fn lemma_turn_difference(
    w: nat,
    a: nat,
    c: nat,
    t: nat,
    fa: bool,
    fc: bool,
    ft: bool,
    n: nat,
)
    requires
        n > 0,
        a < n,
        c < n,
        w == 0 || 2 * w == n,
        t == (a + (n - c) as nat % n) % n,
        ft == (fa != fc),
    ensures
        phase_turn(w, t, ft, n) == (phase_turn(w, a, fa, n) + phase_turn(w, c, fc, n)) % (2 * n),
{
    let m = (2 * n) as int;
    let d = ((n - c) as nat % n) as int;
    if c == 0 {
        lemma_mod_self_0(n as int);
    } else {
        lemma_small_mod((n - c) as nat, n);
    }
    let q = (a + d) / (n as int);
    lemma_fundamental_div_mod(a + d, n as int);
    let e: int = if c == 0 {
        0
    } else {
        1
    };
    // t == a - c + n * (e - q)
    let x = 2 * w * a + flip_steps(fa, n);
    let y = 2 * w * c + flip_steps(fc, n);
    let z = 2 * w * t + flip_steps(ft, n);
    lemma_add_mod_noop(x, y, m);
    let carry: int = if fa && fc {
        1
    } else {
        0
    };
    let u: int = if w == 0 {
        0
    } else {
        c as int
    };
    assert(2 * w * a + 2 * w * c == 2 * w * t + (2 * n) * (w * (q - e) + u)) by {
        assert(t == a - c + n * (e - q)) by (nonlinear_arith)
            requires
                t == a + d - n * q,
                d == n * e - c,
        ;
        assert(4 * w * c == (2 * n) * u) by (nonlinear_arith)
            requires
                w == 0 ==> u == 0,
                w != 0 ==> u == c && 2 * w == n,
        ;
        assert(2 * w * a + 2 * w * c == 2 * w * (a - c + n * (e - q)) + (2 * n) * (w * (q - e))
            + 4 * w * c) by (nonlinear_arith);
        assert((2 * n) * (w * (q - e) + u) == (2 * n) * (w * (q - e)) + (2 * n) * u)
            by (nonlinear_arith);
    }
    let total = w * (q - e) + u;
    assert((2 * n) * (total + carry) == (2 * n) * total + (2 * n) * carry) by (nonlinear_arith);
    assert(x + y == z + m * (total + carry));
    lemma_mod_multiples_vanish(total + carry, z, m);
}

/// Facts about the orbit of a state, read off its group images.
proof fn lemma_orbit_facts(symmetry: RingSymmetry, x: nat, r: nat, g: (nat, bool))
    requires
        symmetry.wf(),
        symmetry.state(x),
        symmetry.element(g),
        symmetry.act(g, x) == r,
        symmetry.is_representative(x, r),
    ensures
        symmetry.state(r),
        symmetry.is_representative(r, r),
        symmetry.survives(x) == symmetry.survives(r),
        symmetry.orbit(x) == symmetry.orbit(r),
        symmetry.survives(r) ==> forall|h: (nat, bool)|
            symmetry.element(h) && #[trigger] symmetry.act(h, r) == x ==> symmetry.turn(h, r)
                == (2 * symmetry.sites - symmetry.turn(g, x)) % (2 * symmetry.sites as int),
{
    let m = 2 * symmetry.sites as nat;
    symmetry.lemma_act(g, x);
    let back = symmetry.elements_invert(g, x);
    assert forall|h: (nat, bool)| symmetry.element(h) implies r <= #[trigger] symmetry.act(
        h,
        r,
    ) by {
        let k = symmetry.elements_compose(g, h, x);
        assert(symmetry.act(k, x) == symmetry.act(h, r));
    }
    symmetry.lemma_identity(r);
    orbits_are_shared(symmetry, x, g);
    if symmetry.survives(r) {
        assert forall|h: (nat, bool)|
            symmetry.element(h) && #[trigger] symmetry.act(h, r) == x implies symmetry.turn(h, r)
            == (2 * symmetry.sites - symmetry.turn(g, x)) % (2 * symmetry.sites as int) by {
            let k = symmetry.elements_compose(h, g, r);
            assert(symmetry.act(k, r) == r);
            lemma_turn_range(symmetry, h, r);
            lemma_turn_range(symmetry, g, x);
            lemma_negated_turn(symmetry.turn(h, r), symmetry.turn(g, x), m);
        }
    }
}

/// All states of an orbit have the same orbit, survive together, and have the same
/// representative.
pub proof fn orbits_are_shared(symmetry: RingSymmetry, x: nat, g: (nat, bool))
    requires
        symmetry.wf(),
        symmetry.state(x),
        symmetry.element(g),
    ensures
        symmetry.state(symmetry.act(g, x)),
        symmetry.survives(symmetry.act(g, x)) == symmetry.survives(x),
        symmetry.orbit(symmetry.act(g, x)) == symmetry.orbit(x),
        forall|r: nat| #[trigger]
            symmetry.is_representative(symmetry.act(g, x), r) == symmetry.is_representative(x, r),
{
    let r = symmetry.act(g, x);
    let m = 2 * symmetry.sites as nat;
    symmetry.lemma_act(g, x);
    let back = symmetry.elements_invert(g, x);
    // conjugating a stabilizer of one end gives a stabilizer of the other
    if symmetry.survives(r) {
        assert forall|h: (nat, bool)|
            symmetry.element(h) && #[trigger] symmetry.act(h, x) == x implies symmetry.turn(h, x)
            == 0 by {
            let k1 = symmetry.elements_compose(back, h, r);
            let k2 = symmetry.elements_compose(k1, g, r);
            assert(symmetry.act(k2, r) == r);
            lemma_conjugate_turn(
                symmetry.turn(back, r),
                symmetry.turn(h, x),
                symmetry.turn(g, x),
                m,
            );
            lemma_turn_range(symmetry, h, x);
        }
    }
    if symmetry.survives(x) {
        assert forall|h: (nat, bool)|
            symmetry.element(h) && #[trigger] symmetry.act(h, r) == r implies symmetry.turn(h, r)
            == 0 by {
            let k1 = symmetry.elements_compose(g, h, x);
            let k2 = symmetry.elements_compose(k1, back, x);
            assert(symmetry.act(k2, x) == x);
            lemma_conjugate_turn(
                symmetry.turn(g, x),
                symmetry.turn(h, r),
                symmetry.turn(back, r),
                m,
            );
            lemma_turn_range(symmetry, h, r);
        }
    }
    lemma_reach(symmetry, x, r, g);
    lemma_reach(symmetry, r, x, back);
    assert(symmetry.orbit(r) =~= symmetry.orbit(x));
    assert forall|least: nat| #[trigger]
        symmetry.is_representative(r, least) == symmetry.is_representative(x, least) by {
        if symmetry.is_representative(r, least) {
            lemma_carry_representative(symmetry, x, r, g, back, least);
        }
        if symmetry.is_representative(x, least) {
            lemma_carry_representative(symmetry, r, x, back, g, least);
        }
    }
}

/// What is reached from an image of a state is reached from the state.
proof fn lemma_reach(symmetry: RingSymmetry, x: nat, y: nat, g: (nat, bool))
    requires
        symmetry.wf(),
        symmetry.state(x),
        symmetry.element(g),
        symmetry.act(g, x) == y,
    ensures
        symmetry.orbit(y).subset_of(symmetry.orbit(x)),
{
    assert forall|z: u128| symmetry.orbit(y).contains(z) implies symmetry.orbit(x).contains(z) by {
        let h = choose|h: (nat, bool)| symmetry.element(h) && #[trigger] symmetry.act(h, y) == z;
        let k = symmetry.elements_compose(g, h, x);
        assert(symmetry.act(k, x) == z);
    }
}

proof fn lemma_carry_representative(
    symmetry: RingSymmetry,
    x: nat,
    y: nat,
    g: (nat, bool),
    back: (nat, bool),
    least: nat,
)
    requires
        symmetry.wf(),
        symmetry.state(x),
        symmetry.state(y),
        symmetry.element(g),
        symmetry.element(back),
        symmetry.act(g, x) == y,
        symmetry.act(back, y) == x,
        symmetry.is_representative(y, least),
    ensures
        symmetry.is_representative(x, least),
{
    let h = choose|h: (nat, bool)| symmetry.element(h) && #[trigger] symmetry.act(h, y) == least;
    let k = symmetry.elements_compose(g, h, x);
    assert(symmetry.act(k, x) == least);
    assert forall|e: (nat, bool)| symmetry.element(e) implies least <= #[trigger] symmetry.act(
        e,
        x,
    ) by {
        let k = symmetry.elements_compose(back, e, y);
        assert(symmetry.act(k, y) == symmetry.act(e, x));
    }
}

/// Two listed states of a sector never share an orbit: a sector lists one state per
/// orbit.
pub proof fn listed_orbits_are_disjoint(
    sector: RingSector,
    symmetry: RingSymmetry,
    total: Option<usize>,
    first: u128,
    second: u128,
)
    requires
        symmetry.wf(),
        sector.covers(symmetry, total),
        sector.states@.contains(first),
        sector.states@.contains(second),
        symmetry.orbit(first as nat).contains(second),
    ensures
        first == second,
{
    let g = choose|g: (nat, bool)|
        symmetry.element(g) && #[trigger] symmetry.act(g, first as nat) == second;
    assert(states::in_sector(first, symmetry.base as nat, symmetry.sites as nat, total));
    let back = symmetry.elements_invert(g, first as nat);
    assert(first <= symmetry.act(g, first as nat));
    assert(second <= symmetry.act(back, second as nat));
}

/// Every surviving state of a sector has its place in the orbit of a listed state.
pub proof fn surviving_states_are_located(
    sector: RingSector,
    symmetry: RingSymmetry,
    total: Option<usize>,
    state: u128,
)
    requires
        symmetry.wf(),
        sector.covers(symmetry, total),
        states::in_sector(state, symmetry.base as nat, symmetry.sites as nat, total),
        symmetry.survives(state as nat),
    ensures
        sector.spec_image(state) matches Some(image) && locates(symmetry, state, image)
            && sector.states@.contains(image.representative) && symmetry.orbit(
            image.representative as nat,
        ).contains(state),
{
    assert(sector.members@.contains(state));
    let place = sector.members@.index_of(state);
    assert(sector.members@[place] == state);
    let image = sector.images@[place];
    assert(locates(symmetry, sector.members[place], sector.images[place]));
    let r = image.representative as nat;
    let g = choose|g: (nat, bool)| symmetry.element(g) && #[trigger] symmetry.act(g, state as nat) == r;
    let back = symmetry.elements_invert(g, state as nat);
    assert(symmetry.act(back, r) == state);
    assert(sector.states@.contains(sector.images[place].representative));
}

proof fn lemma_turn_range(symmetry: RingSymmetry, g: (nat, bool), s: nat)
    requires
        symmetry.wf(),
    ensures
        symmetry.turn(g, s) < 2 * symmetry.sites,
{
    let flip: nat = if symmetry.flips(g, s) {
        symmetry.sites as nat
    } else {
        0
    };
    assert(0 <= 2 * symmetry.wave() * g.0) by (nonlinear_arith);
    lemma_mod_bound((2 * symmetry.wave() * g.0 + flip) as int, 2 * symmetry.sites as int);
}

proof fn lemma_conjugate_turn(a: nat, t: nat, c: nat, m: nat)
    requires
        m > 0,
        t < m,
        (a + c) % m == 0,
        ((a + t) % m + c) % m == 0,
    ensures
        t == 0,
{
    lemma_add_mod_noop((a + t) as int, c as int, m as int);
    lemma_mod_twice((a + t) as int, m as int);
    lemma_add_mod_noop((a + t) as int % m as int, c as int, m as int);
    lemma_add_mod_noop((a + c) as int, t as int, m as int);
    lemma_small_mod(t, m);
    assert(a + t + c == a + c + t);
}

proof fn lemma_negated_turn(a: nat, c: nat, m: nat)
    requires
        m > 0,
        a < m,
        c < m,
        (a + c) % m == 0,
    ensures
        a == (m - c) % m as int,
{
    lemma_fundamental_div_mod((a + c) as int, m as int);
    let q = (a + c) / m;
    assert(a + c == m * q);
    assert(q == 0 || q == 1) by (nonlinear_arith)
        requires
            m * q < 2 * m,
            m > 0,
            q >= 0,
    ;
    if q == 0 {
        lemma_mul_basics(m as int);
        lemma_mod_self_0(m as int);
    } else {
        lemma_mul_basics(m as int);
        lemma_small_mod(a, m);
    }
}

/// What one pass over the group tells about a state.
struct OrbitSummary {
    representative: u128,
    turn: usize,
    survives: bool,
}

impl RingSymmetry {
    /// The images of a state with their phases, in the order of the group.
    fn orbit_images(&self, state: u128) -> (images: Vec<(u128, usize)>)
        requires
            self.wf(),
            self.state(state as nat),
        ensures
            images.len() == self.order(),
            forall|i: int|
                0 <= i < images.len() ==> (#[trigger] images[i]).0 == self.act(
                    self.element_at(i),
                    state as nat,
                ) && images[i].1 == self.turn(self.element_at(i), state as nat),
    {
        let ghost x = state as nat;
        let ghost n = self.sites as nat;
        let ghost b = self.base as nat;
        proof {
            self.lemma_sites();
            self.lemma_identity(x);
        }
        let steps: usize = match self.momentum {
            Some(_) => self.sites,
            None => 1,
        };
        let wave: usize = match self.momentum {
            Some(k) => k,
            None => 0,
        };
        let top_place: u128 = if self.sites > 1 {
            proof {
                lattice::lemma_place_below(b, n, (n - 1) as nat);
                radix::lemma_place_positive(b, (n - 1) as nat);
            }
            lattice::power(self.base, self.sites - 1)
        } else {
            1
        };
        let even: bool = self.fermionic && has_even_digit_sum(state, self.base, self.sites);
        let mut images: Vec<(u128, usize)> = Vec::new();
        let mut current: u128 = state;
        let mut turn: usize = 0;
        let mut shift: usize = 0;
        while shift < steps
            invariant
                self.wf(),
                self.sites <= 128,
                x == state as nat,
                n == self.sites as nat,
                b == self.base as nat,
                self.state(x),
                steps == self.translations(),
                wave == self.wave(),
                top_place > 0,
                self.sites > 1 ==> top_place == radix::place(b, (n - 1) as nat),
                even == (self.fermionic && radix::digit_sum(x, b, n) % 2 == 0),
                shift <= steps,
                images.len() == (if self.parity is Some {
                    2 * shift
                } else {
                    shift as int
                }),
                shift < steps ==> current == self.act((shift as nat, false), x) && turn
                    == self.turn((shift as nat, false), x),
                forall|i: int|
                    0 <= i < images.len() ==> (#[trigger] images[i]).0 == self.act(
                        self.element_at(i),
                        x,
                    ) && images[i].1 == self.turn(self.element_at(i), x),
            decreases steps - shift,
        {
            proof {
                self.lemma_act((shift as nat, false), x);
                lemma_turn_range(*self, (shift as nat, false), x);
            }
            images.push((current, turn));
            if let Some(sign) = self.parity {
                let reflected: u128 = lattice::reflect_lattice_state(
                    current,
                    self.sites,
                    self.base,
                );
                let extra: usize = if sign == -1 {
                    self.sites
                } else {
                    0
                };
                proof {
                    let base_turn = 2 * self.wave() * shift;
                    assert(0 <= base_turn) by (nonlinear_arith)
                        requires
                            base_turn == 2 * self.wave() * shift,
                    ;
                    lemma_add_mod_noop(base_turn, extra as int, 2 * n as int);
                    lemma_mod_twice(base_turn, 2 * n as int);
                    lemma_add_mod_noop(base_turn % (2 * n as int), extra as int, 2 * n as int);
                }
                images.push((reflected, (turn + extra) % (2 * self.sites)));
            }
            shift = shift + 1;
            if shift < steps {
                let low: u128 = current % top_place;
                let top: u128 = current / top_place;
                proof {
                    let g = ((shift - 1) as nat, false);
                    let one = (1nat, false);
                    let k = self.elements_compose(g, one, x);
                    lemma_small_mod(shift as nat, n);
                    lattice::lemma_rotation_by_parts(current as nat, 1, n, b);
                    assert(radix::place(b, 1) == b) by {
                        assert(radix::place(b, 0) == 1);
                        lemma_mul_basics(b as int);
                    }
                    self.lemma_single_step(current as nat);
                    lemma_turn_range(*self, one, current as nat);
                }
                let exchange: usize = if even && top == 1 {
                    self.sites
                } else {
                    0
                };
                let step: usize = (2 * wave + exchange) % (2 * self.sites);
                current = low * self.base + top;
                turn = (turn + step) % (2 * self.sites);
            }
        }
        images
    }

    /// The phase of a translation by one site.
    proof fn lemma_single_step(self, s: nat)
        requires
            self.wf(),
            self.state(s),
            self.sites > 1,
        ensures
            self.turn((1, false), s) == (2 * self.wave() + (if self.fermionic && radix::digit_sum(
                s,
                self.base as nat,
                self.sites as nat,
            ) % 2 == 0 && s / radix::place(self.base as nat, (self.sites - 1) as nat) == 1 {
                self.sites as int
            } else {
                0
            })) % (2 * self.sites as int),
    {
        let n = self.sites as nat;
        let b = self.base as nat;
        let m = (n - 1) as nat;
        let ds = radix::digits(s, b, n);
        lemma_mul_basics((2 * self.wave()) as int);
        if self.fermionic {
            let d = radix::digit(s, b, m);
            assert(ds.subrange(n - 1, n as int) =~= seq![d]);
            radix::lemma_total_single(d);
            assert(self.wrapped(s, 1) == d);
            radix::lemma_place_positive(b, m);
            let q = s / radix::place(b, m);
            assert(q < 2) by {
                lemma_multiply_divide_lt(s as int, radix::place(b, m) as int, 2);
                assert(radix::place(b, n) == b * radix::place(b, m));
            }
            lemma_small_mod(q, 2);
            self.lemma_wrapped_bound(s, 1);
            lemma_product_parity(d as int, radix::digit_sum(s, b, n) - d);
        }
    }

    fn summarize(&self, state: u128) -> (summary: OrbitSummary)
        requires
            self.wf(),
            self.state(state as nat),
        ensures
            self.is_representative(state as nat, summary.representative as nat),
            exists|g: (nat, bool)|
                self.element(g) && #[trigger] self.act(g, state as nat)
                    == summary.representative && self.turn(g, state as nat) == summary.turn,
            summary.survives == self.survives(state as nat),
            summary.turn < 2 * self.sites,
    {
        let ghost x = state as nat;
        let images: Vec<(u128, usize)> = self.orbit_images(state);
        proof {
            self.lemma_elements();
            self.lemma_identity(x);
            assert(self.element_at(0) == (0nat, false));
        }
        let mut representative: u128 = images[0].0;
        let mut turn: usize = images[0].1;
        let mut survives: bool = true;
        let mut position: usize = 0;
        let ghost mut best: int = 0;
        while position < images.len()
            invariant
                self.wf(),
                x == state as nat,
                images.len() == self.order(),
                position <= images.len(),
                0 <= best < images.len(),
                representative == images[best].0,
                turn == images[best].1,
                forall|i: int|
                    0 <= i < images.len() ==> (#[trigger] images[i]).0 == self.act(
                        self.element_at(i),
                        x,
                    ) && images[i].1 == self.turn(self.element_at(i), x),
                forall|i: int| 0 <= i < position ==> representative <= (#[trigger] images[i]).0,
                survives == (forall|i: int|
                    0 <= i < position && (#[trigger] images[i]).0 == state ==> images[i].1 == 0),
            decreases images.len() - position,
        {
            let image: (u128, usize) = images[position];
            if image.0 < representative {
                representative = image.0;
                turn = image.1;
                proof {
                    best = position as int;
                }
            }
            if image.0 == state && image.1 != 0 {
                survives = false;
            }
            position = position + 1;
        }
        proof {
            let g = self.element_at(best);
            assert(self.element(g) && self.act(g, x) == representative && self.turn(g, x) == turn);
            lemma_turn_range(*self, g, x);
            assert forall|h: (nat, bool)| self.element(h) implies representative
                <= #[trigger] self.act(h, x) by {
                let i = choose|i: int| 0 <= i < self.order() && h == #[trigger] self.element_at(i);
                assert(images[i].0 == self.act(h, x));
            }
            if survives {
                assert forall|h: (nat, bool)|
                    self.element(h) && #[trigger] self.act(h, x) == x implies self.turn(h, x)
                    == 0 by {
                    let i = choose|i: int|
                        0 <= i < self.order() && h == #[trigger] self.element_at(i);
                    assert(images[i].0 == state);
                }
            } else {
                let i = choose|i: int|
                    0 <= i < position && (#[trigger] images[i]).0 == state && images[i].1 != 0;
                let h = self.element_at(i);
                assert(self.element(h) && self.act(h, x) == x && self.turn(h, x) != 0);
            }
        }
        OrbitSummary { representative, turn, survives }
    }

    /// The number of states in the orbit of a state.
    pub fn orbit_size(&self, state: u128) -> (size: usize)
        requires
            self.wf(),
            self.state(state as nat),
        ensures
            self.orbit(state as nat).finite(),
            size == self.orbit(state as nat).len(),
    {
        let ghost x = state as nat;
        let images: Vec<(u128, usize)> = self.orbit_images(state);
        let mut distinct: Vec<u128> = Vec::new();
        let mut position: usize = 0;
        while position < images.len()
            invariant
                position <= images.len(),
                distinct@.no_duplicates(),
                forall|y: u128| #[trigger]
                    distinct@.contains(y) <==> exists|i: int|
                        0 <= i < position && (#[trigger] images[i]).0 == y,
            decreases images.len() - position,
        {
            let image: u128 = images[position].0;
            let mut known: bool = false;
            let mut probe: usize = 0;
            while probe < distinct.len() && !known
                invariant
                    probe <= distinct.len(),
                    known ==> distinct@.contains(image),
                    !known ==> forall|j: int| 0 <= j < probe ==> #[trigger] distinct[j] != image,
                decreases distinct.len() - probe + (if known {
                    0int
                } else {
                    1int
                }),
            {
                if distinct[probe] == image {
                    known = true;
                    assert(distinct@[probe as int] == image);
                } else {
                    probe = probe + 1;
                }
            }
            let ghost before = distinct@;
            if !known {
                distinct.push(image);
            }
            proof {
                states::lemma_contains_push(before, image);
                assert forall|y: u128| #[trigger] distinct@.contains(y) <==> exists|i: int|
                    0 <= i < position + 1 && (#[trigger] images[i]).0 == y by {
                    if distinct@.contains(y) && y == image {
                        assert(images[position as int].0 == y);
                    }
                    if exists|i: int| 0 <= i < position + 1 && (#[trigger] images[i]).0 == y {
                        let i = choose|i: int|
                            0 <= i < position + 1 && (#[trigger] images[i]).0 == y;
                        if i < position {
                            assert(before.contains(y));
                        }
                    }
                }
            }
            position = position + 1;
        }
        proof {
            self.lemma_elements();
            assert forall|y: u128| distinct@.to_set().contains(y) <==> self.orbit(x).contains(y) by {
                if distinct@.contains(y) {
                    let i = choose|i: int| 0 <= i < position && (#[trigger] images[i]).0 == y;
                    assert(self.act(self.element_at(i), x) == y);
                }
                if self.orbit(x).contains(y) {
                    let h = choose|h: (nat, bool)|
                        self.element(h) && #[trigger] self.act(h, x) == y;
                    let i = choose|i: int|
                        0 <= i < self.order() && h == #[trigger] self.element_at(i);
                    assert(images[i].0 == y);
                }
            }
            assert(distinct@.to_set() =~= self.orbit(x));
            distinct@.unique_seq_to_set();
        }
        distinct.len()
    }
}

/// Whether the digits of a state add up to an even number.
fn has_even_digit_sum(state: u128, base: u128, sites: usize) -> (even: bool)
    requires
        base >= 2,
    ensures
        even == (radix::digit_sum(state as nat, base as nat, sites as nat) % 2 == 0),
{
    let ghost s = state as nat;
    let ghost b = base as nat;
    let mut even: bool = true;
    let mut remaining: u128 = state;
    let mut site: usize = 0;
    proof {
        assert(s / radix::place(b, 0) == s) by {
            lemma_div_basics(s as int);
        }
        assert(radix::digits(s, b, 0) =~= Seq::<nat>::empty());
    }
    while site < sites
        invariant
            base >= 2,
            b == base as nat,
            site <= sites,
            remaining == s / radix::place(b, site as nat),
            even == (radix::digit_sum(s, b, site as nat) % 2 == 0),
        decreases sites - site,
    {
        proof {
            radix::lemma_quotient_step(s, b, site as nat);
            radix::lemma_digit_sum_extend(s, b, site as nat);
        }
        if (remaining % base) % 2 == 1 {
            even = !even;
        }
        remaining = remaining / base;
        site = site + 1;
    }
    even
}

/// A symmetry sector: one state per surviving orbit, and the place of every
/// surviving state of the parent sector in its orbit.
#[derive(Clone, Debug)]
pub struct RingSector {
    pub states: Vec<u128>,
    pub orbit_sizes: Vec<usize>,
    pub members: Vec<u128>,
    pub images: Vec<SymmetryImage>,
    pub momentum: Option<usize>,
    pub parity: Option<i8>,
}

/// The image tells where the state lies in its orbit: the smallest state, the size
/// of the orbit, and the phase of every group element that leads to the state.
pub open spec fn locates(symmetry: RingSymmetry, state: u128, image: SymmetryImage) -> bool {
    let r = image.representative as nat;
    &&& symmetry.is_representative(state as nat, r)
    &&& symmetry.survives(r)
    &&& image.orbit_size == symmetry.orbit(r).len()
    &&& image.turn < 2 * symmetry.sites
    &&& forall|g: (nat, bool)|
        symmetry.element(g) && #[trigger] symmetry.act(g, r) == state ==> symmetry.turn(g, r)
            == image.turn
}

impl RingSector {
    /// The sector that the symmetry cuts out of the parent states.
    pub open spec fn describes(self, symmetry: RingSymmetry, parent: Seq<u128>) -> bool {
        &&& states::ascending(self.states@)
        &&& forall|x: u128| #[trigger]
            self.states@.contains(x) <==> parent.contains(x) && symmetry.is_representative(
                x as nat,
                x as nat,
            ) && symmetry.survives(x as nat)
        &&& self.orbit_sizes.len() == self.states.len()
        &&& forall|i: int|
            0 <= i < self.states.len() ==> #[trigger] self.orbit_sizes[i] == symmetry.orbit(
                self.states[i] as nat,
            ).len()
        &&& states::ascending(self.members@)
        &&& forall|x: u128| #[trigger]
            self.members@.contains(x) <==> parent.contains(x) && symmetry.survives(x as nat)
        &&& self.images.len() == self.members.len()
        &&& forall|i: int|
            0 <= i < self.members.len() ==> locates(
                symmetry,
                self.members[i],
                #[trigger] self.images[i],
            )
        &&& forall|i: int|
            0 <= i < self.images.len() ==> self.states@.contains(
                (#[trigger] self.images[i]).representative,
            )
    }
}

impl RingSector {
    /// Every parent state is listed, alone in its orbit.
    pub open spec fn leaves_alone(self, parent: Seq<u128>) -> bool {
        &&& self.states@ == parent
        &&& self.members@ == parent
        &&& self.orbit_sizes.len() == parent.len()
        &&& self.images.len() == parent.len()
        &&& forall|i: int| 0 <= i < parent.len() ==> #[trigger] self.orbit_sizes[i] == 1
        &&& forall|i: int|
            0 <= i < parent.len() ==> #[trigger] self.images[i] == (SymmetryImage {
                representative: parent[i],
                turn: 0,
                orbit_size: 1,
            })
    }

    /// The sector that the symmetry cuts out of the states of fixed digit total.
    pub open spec fn covers(self, symmetry: RingSymmetry, total: Option<usize>) -> bool {
        let b = symmetry.base as nat;
        let n = symmetry.sites as nat;
        &&& states::ascending(self.states@)
        &&& forall|x: u128| #[trigger]
            self.states@.contains(x) <==> states::in_sector(x, b, n, total)
                && symmetry.is_representative(x as nat, x as nat) && symmetry.survives(x as nat)
        &&& self.orbit_sizes.len() == self.states.len()
        &&& forall|i: int|
            0 <= i < self.states.len() ==> #[trigger] self.orbit_sizes[i] == symmetry.orbit(
                self.states[i] as nat,
            ).len()
        &&& states::ascending(self.members@)
        &&& forall|x: u128| #[trigger]
            self.members@.contains(x) <==> states::in_sector(x, b, n, total) && symmetry.survives(
                x as nat,
            )
        &&& self.images.len() == self.members.len()
        &&& forall|i: int|
            0 <= i < self.members.len() ==> locates(
                symmetry,
                self.members[i],
                #[trigger] self.images[i],
            )
        &&& forall|i: int|
            0 <= i < self.images.len() ==> self.states@.contains(
                (#[trigger] self.images[i]).representative,
            )
    }

    pub proof fn lemma_covers(
        self,
        symmetry: RingSymmetry,
        parent: Seq<u128>,
        total: Option<usize>,
    )
        requires
            self.describes(symmetry, parent),
            states::lists_sector(parent, symmetry.base as nat, symmetry.sites as nat, total),
        ensures
            self.covers(symmetry, total),
    {
        assert forall|x: u128| #[trigger] self.states@.contains(x) <==> states::in_sector(
            x,
            symmetry.base as nat,
            symmetry.sites as nat,
            total,
        ) && symmetry.is_representative(x as nat, x as nat) && symmetry.survives(x as nat) by {
            assert(parent.contains(x) <==> states::in_sector(
                x,
                symmetry.base as nat,
                symmetry.sites as nat,
                total,
            ));
        }
        assert forall|x: u128| #[trigger] self.members@.contains(x) <==> states::in_sector(
            x,
            symmetry.base as nat,
            symmetry.sites as nat,
            total,
        ) && symmetry.survives(x as nat) by {
            assert(parent.contains(x) <==> states::in_sector(
                x,
                symmetry.base as nat,
                symmetry.sites as nat,
                total,
            ));
        }
    }

    /// Where a state lies in its orbit, if its orbit survives.
    pub open spec fn spec_image(self, state: u128) -> Option<SymmetryImage> {
        if self.members@.contains(state) {
            Some(self.images[self.members@.index_of(state)])
        } else {
            None
        }
    }

    /// Looks up where a state lies in its orbit.
    pub fn image(&self, state: u128) -> (image: Option<SymmetryImage>)
        requires
            states::ascending(self.members@),
            self.images.len() == self.members.len(),
        ensures
            image == self.spec_image(state),
    {
        match states::state_index(&self.members, state) {
            Ok(index) => {
                proof {
                    assert(self.members@[index as int] == state);
                    let first = self.members@.index_of(state);
                    assert(self.members@[first] == state);
                    if first < index {
                        assert(self.members@[first] < self.members@[index as int]);
                    } else if index < first {
                        assert(self.members@[index as int] < self.members@[first]);
                    }
                }
                Some(self.images[index])
            },
            Err(_) => None,
        }
    }
}

/// Every group image of a listed state is listed.
pub open spec fn closed_under(symmetry: RingSymmetry, parent: Seq<u128>) -> bool {
    forall|x: u128, g: (nat, bool)|
        parent.contains(x) && symmetry.element(g) ==> parent.contains(
            #[trigger] symmetry.act(g, x as nat) as u128,
        )
}

/// A sector of fixed digit total is closed under the group.
pub proof fn sectors_are_closed(symmetry: RingSymmetry, parent: Seq<u128>, total: Option<usize>)
    requires
        symmetry.wf(),
        states::lists_sector(parent, symmetry.base as nat, symmetry.sites as nat, total),
    ensures
        closed_under(symmetry, parent),
        forall|x: u128| #[trigger] parent.contains(x) ==> symmetry.state(x as nat),
{
    let b = symmetry.base as nat;
    let n = symmetry.sites as nat;
    assert forall|x: u128, g: (nat, bool)|
        parent.contains(x) && symmetry.element(g) implies parent.contains(
        #[trigger] symmetry.act(g, x as nat) as u128,
    ) by {
        symmetry.lemma_act(g, x as nat);
        assert(states::in_sector(x, b, n, total));
        assert(states::in_sector(symmetry.act(g, x as nat) as u128, b, n, total));
    }
}

/// A state that some group element makes of a listed state.
pub open spec fn reached(symmetry: RingSymmetry, parent: Seq<u128>, x: u128) -> bool {
    exists|p: u128, g: (nat, bool)|
        parent.contains(p) && symmetry.element(g) && #[trigger] symmetry.act(g, p as nat) == x
}

/// The list holds all images of the listed states in increasing order.
pub open spec fn completes(symmetry: RingSymmetry, parent: Seq<u128>, whole: Seq<u128>) -> bool {
    &&& states::ascending(whole)
    &&& forall|x: u128| #[trigger] whole.contains(x) <==> reached(symmetry, parent, x)
}

/// All states of the list are encodable.
pub open spec fn encodable(parent: Seq<u128>, base: nat, sites: nat) -> bool {
    forall|x: u128| #[trigger] parent.contains(x) ==> x < radix::place(base, sites)
}

/// The images of all listed states are closed under the group; a list that is closed
/// already has no other images.
pub proof fn images_are_closed(symmetry: RingSymmetry, parent: Seq<u128>, whole: Seq<u128>)
    requires
        symmetry.wf(),
        encodable(parent, symmetry.base as nat, symmetry.sites as nat),
        completes(symmetry, parent, whole),
    ensures
        closed_under(symmetry, whole),
        encodable(whole, symmetry.base as nat, symmetry.sites as nat),
        forall|x: u128| #[trigger] parent.contains(x) ==> whole.contains(x),
        closed_under(symmetry, parent) ==> forall|x: u128| #[trigger]
            whole.contains(x) <==> parent.contains(x),
{
    symmetry.lemma_sites();
    assert forall|x: u128| #[trigger] parent.contains(x) implies whole.contains(x) by {
        symmetry.lemma_identity(x as nat);
        assert(symmetry.act((0, false), x as nat) == x);
        assert(reached(symmetry, parent, x));
    }
    assert forall|x: u128| #[trigger] whole.contains(x) implies x < radix::place(
        symmetry.base as nat,
        symmetry.sites as nat,
    ) by {
        let (p, g) = choose|p: u128, g: (nat, bool)|
            parent.contains(p) && symmetry.element(g) && #[trigger] symmetry.act(g, p as nat) == x;
        symmetry.lemma_act(g, p as nat);
    }
    assert forall|x: u128, h: (nat, bool)|
        whole.contains(x) && symmetry.element(h) implies whole.contains(
        #[trigger] symmetry.act(h, x as nat) as u128,
    ) by {
        let (p, g) = choose|p: u128, g: (nat, bool)|
            parent.contains(p) && symmetry.element(g) && #[trigger] symmetry.act(g, p as nat) == x;
        let k = symmetry.elements_compose(g, h, p as nat);
        symmetry.lemma_act(h, x as nat);
        let y = symmetry.act(h, x as nat) as u128;
        assert(symmetry.act(k, p as nat) == y);
        assert(reached(symmetry, parent, y));
    }
    if closed_under(symmetry, parent) {
        assert forall|x: u128| #[trigger] whole.contains(x) implies parent.contains(x) by {
            let (p, g) = choose|p: u128, g: (nat, bool)|
                parent.contains(p) && symmetry.element(g) && #[trigger] symmetry.act(g, p as nat)
                    == x;
            assert(parent.contains(symmetry.act(g, p as nat) as u128));
        }
    }
}

/// Whether every group image of a listed state is listed.
fn is_closed(parent: &Vec<u128>, symmetry: RingSymmetry) -> (closed: bool)
    requires
        symmetry.wf(),
        states::ascending(parent@),
        encodable(parent@, symmetry.base as nat, symmetry.sites as nat),
    ensures
        closed == closed_under(symmetry, parent@),
{
    let mut position: usize = 0;
    while position < parent.len()
        invariant
            symmetry.wf(),
            states::ascending(parent@),
            encodable(parent@, symmetry.base as nat, symmetry.sites as nat),
            position <= parent.len(),
            forall|i: int, g: (nat, bool)|
                0 <= i < position && symmetry.element(g) ==> parent@.contains(
                    #[trigger] symmetry.act(g, parent[i] as nat) as u128,
                ),
        decreases parent.len() - position,
    {
        let state: u128 = parent[position];
        assert(parent@.contains(state));
        let images: Vec<(u128, usize)> = symmetry.orbit_images(state);
        let mut index: usize = 0;
        proof {
            symmetry.lemma_elements();
        }
        while index < images.len()
            invariant
                symmetry.wf(),
                states::ascending(parent@),
                parent@.contains(state),
                images.len() == symmetry.order(),
                index <= images.len(),
                forall|i: int| 0 <= i < images.len() ==> symmetry.element(#[trigger] symmetry.element_at(i)),
                forall|i: int|
                    0 <= i < images.len() ==> (#[trigger] images[i]).0 == symmetry.act(
                        symmetry.element_at(i),
                        state as nat,
                    ),
                forall|i: int| 0 <= i < index ==> parent@.contains((#[trigger] images[i]).0),
            decreases images.len() - index,
        {
            if states::state_index(parent, images[index].0).is_err() {
                proof {
                    let g = symmetry.element_at(index as int);
                    assert(symmetry.element(g));
                    assert(!parent@.contains(symmetry.act(g, state as nat) as u128));
                }
                return false;
            }
            proof {
                let found = images[index as int].0;
                assert(parent@.contains(found));
            }
            index = index + 1;
        }
        proof {
            assert forall|g: (nat, bool)| symmetry.element(g) implies parent@.contains(
                #[trigger] symmetry.act(g, state as nat) as u128,
            ) by {
                let i = choose|i: int| 0 <= i < symmetry.order() && #[trigger] symmetry.element_at(i) == g;
                assert(parent@.contains(images[i].0));
            }
        }
        position = position + 1;
    }
    proof {
        assert forall|x: u128, g: (nat, bool)|
            parent@.contains(x) && symmetry.element(g) implies parent@.contains(
            #[trigger] symmetry.act(g, x as nat) as u128,
        ) by {
            let i = choose|i: int| 0 <= i < parent@.len() && parent@[i] == x;
            assert(parent@.contains(symmetry.act(g, parent[i] as nat) as u128));
        }
    }
    true
}

/// All images of the listed states.
fn complete(parent: &Vec<u128>, symmetry: RingSymmetry) -> (whole: Vec<u128>)
    requires
        symmetry.wf(),
        encodable(parent@, symmetry.base as nat, symmetry.sites as nat),
    ensures
        completes(symmetry, parent@, whole@),
{
    let mut whole: Vec<u128> = Vec::new();
    let mut position: usize = 0;
    assert(parent@.subrange(0, 0) =~= Seq::<u128>::empty());
    while position < parent.len()
        invariant
            symmetry.wf(),
            encodable(parent@, symmetry.base as nat, symmetry.sites as nat),
            position <= parent.len(),
            completes(symmetry, parent@.subrange(0, position as int), whole@),
        decreases parent.len() - position,
    {
        let state: u128 = parent[position];
        let ghost seen = parent@.subrange(0, position as int);
        let ghost start = whole@;
        assert(parent@.contains(state));
        let images: Vec<(u128, usize)> = symmetry.orbit_images(state);
        let mut index: usize = 0;
        while index < images.len()
            invariant
                index <= images.len(),
                states::ascending(whole@),
                forall|x: u128| #[trigger]
                    whole@.contains(x) <==> start.contains(x) || exists|i: int|
                        0 <= i < index && (#[trigger] images[i]).0 == x,
            decreases images.len() - index,
        {
            let ghost before = whole@;
            let next: u128 = images[index].0;
            if states::state_index(&whole, next).is_err() {
                let mut single: Vec<u128> = Vec::new();
                single.push(next);
                whole = states::merge_ascending(&whole, &single);
                proof {
                    assert forall|x: u128| single@.contains(x) <==> x == next by {
                        assert(single@[0] == next);
                    }
                }
            }
            proof {
                assert(images[index as int].0 == next);
                assert forall|x: u128| #[trigger] whole@.contains(x) <==> before.contains(x) || x
                    == next by {}
            }
            index = index + 1;
        }
        proof {
            let longer = parent@.subrange(0, position + 1);
            assert(longer =~= seen.push(state));
            states::lemma_contains_push(seen, state);
            symmetry.lemma_elements();
            assert forall|x: u128| #[trigger] whole@.contains(x) <==> reached(
                symmetry,
                longer,
                x,
            ) by {
                if start.contains(x) {
                    assert(reached(symmetry, seen, x));
                    let (p, g) = choose|p: u128, g: (nat, bool)|
                        seen.contains(p) && symmetry.element(g) && #[trigger] symmetry.act(
                            g,
                            p as nat,
                        ) == x;
                    assert(longer.contains(p));
                }
                if exists|i: int| 0 <= i < images.len() && (#[trigger] images[i]).0 == x {
                    let i = choose|i: int| 0 <= i < images.len() && (#[trigger] images[i]).0 == x;
                    let g = symmetry.element_at(i);
                    assert(symmetry.act(g, state as nat) == x);
                    assert(longer.contains(state));
                }
                if reached(symmetry, longer, x) {
                    let (p, g) = choose|p: u128, g: (nat, bool)|
                        longer.contains(p) && symmetry.element(g) && #[trigger] symmetry.act(
                            g,
                            p as nat,
                        ) == x;
                    if seen.contains(p) {
                        assert(reached(symmetry, seen, x));
                    } else {
                        assert(p == state);
                        let i = choose|i: int|
                            0 <= i < symmetry.order() && #[trigger] symmetry.element_at(i) == g;
                        assert(images[i].0 == x);
                    }
                }
            }
        }
        position = position + 1;
    }
    assert(parent@.subrange(0, position as int) =~= parent@);
    whole
}

/// Cuts the symmetry sector out of the parent states.
fn ring_sector(parent: &Vec<u128>, symmetry: RingSymmetry) -> (sector: RingSector)
    requires
        symmetry.wf(),
        states::ascending(parent@),
        closed_under(symmetry, parent@),
        forall|x: u128| #[trigger] parent@.contains(x) ==> symmetry.state(x as nat),
    ensures
        sector.describes(symmetry, parent@),
        sector.momentum == symmetry.momentum,
        sector.parity == symmetry.parity,
{
    let mut representatives: Vec<u128> = Vec::new();
    let mut orbit_sizes: Vec<usize> = Vec::new();
    let mut members: Vec<u128> = Vec::new();
    let mut located: Vec<(u128, usize)> = Vec::new();
    let mut position: usize = 0;
    while position < parent.len()
        invariant
            symmetry.wf(),
            states::ascending(parent@),
            closed_under(symmetry, parent@),
            forall|x: u128| #[trigger] parent@.contains(x) ==> symmetry.state(x as nat),
            position <= parent.len(),
            states::ascending(representatives@),
            states::ascending(members@),
            orbit_sizes.len() == representatives.len(),
            located.len() == members.len(),
            forall|x: u128| #[trigger]
                representatives@.contains(x) <==> parent@.subrange(0, position as int).contains(x)
                    && symmetry.is_representative(x as nat, x as nat) && symmetry.survives(
                    x as nat,
                ),
            forall|x: u128| #[trigger]
                members@.contains(x) <==> parent@.subrange(0, position as int).contains(x)
                    && symmetry.survives(x as nat),
            forall|i: int|
                0 <= i < representatives.len() ==> #[trigger] orbit_sizes[i] == symmetry.orbit(
                    representatives[i] as nat,
                ).len(),
            forall|i: int|
                0 <= i < members.len() ==> half_located(
                    symmetry,
                    parent@,
                    members[i],
                    #[trigger] located[i],
                ),
        decreases parent.len() - position,
    {
        let state: u128 = parent[position];
        let ghost x = state as nat;
        let ghost seen = parent@.subrange(0, position as int);
        let ghost known = members@;
        let ghost heads = representatives@;
        proof {
            assert(parent@.contains(state));
            assert(parent@.subrange(0, position + 1) =~= seen.push(state));
            states::lemma_contains_push(seen, state);
            states::lemma_contains_push(known, state);
            states::lemma_contains_push(heads, state);
            assert forall|i: int| 0 <= i < members.len() implies #[trigger] members[i] < state by {
                assert(members@.contains(members@[i]));
                let j = choose|j: int| 0 <= j < seen.len() && seen[j] == members[i];
                assert(parent@[j] < parent@[position as int]);
            }
            assert forall|i: int|
                0 <= i < representatives.len() implies #[trigger] representatives[i] < state by {
                assert(representatives@.contains(representatives@[i]));
                let j = choose|j: int| 0 <= j < seen.len() && seen[j] == representatives[i];
                assert(parent@[j] < parent@[position as int]);
            }
        }
        let summary: OrbitSummary = symmetry.summarize(state);
        if summary.survives {
            proof {
                symmetry.lemma_sites();
            }
            let turn: usize = (2 * symmetry.sites - summary.turn) % (2 * symmetry.sites);
            proof {
                let r = summary.representative as nat;
                let g = choose|g: (nat, bool)|
                    symmetry.element(g) && #[trigger] symmetry.act(g, x) == r && symmetry.turn(g, x)
                        == summary.turn;
                lemma_orbit_facts(symmetry, x, r, g);
                assert(parent@.contains(symmetry.act(g, x) as u128));
                lemma_mod_bound(
                    2 * symmetry.sites - summary.turn as int,
                    2 * symmetry.sites as int,
                );
            }
            members.push(state);
            located.push((summary.representative, turn));
            if summary.representative == state {
                representatives.push(state);
                orbit_sizes.push(symmetry.orbit_size(state));
            }
        }
        proof {
            if summary.survives && summary.representative != state {
                assert(!symmetry.is_representative(x, x)) by {
                    let g = choose|g: (nat, bool)|
                        symmetry.element(g) && #[trigger] symmetry.act(g, x)
                            == summary.representative as nat;
                    assert(summary.representative as nat <= symmetry.act((0, false), x));
                    symmetry.lemma_identity(x);
                    if symmetry.is_representative(x, x) {
                        assert(x <= symmetry.act(g, x));
                    }
                }
            }
        }
        position = position + 1;
    }
    assert(parent@.subrange(0, position as int) =~= parent@);
    let mut images: Vec<SymmetryImage> = Vec::new();
    while images.len() < members.len()
        invariant
            symmetry.wf(),
            states::ascending(representatives@),
            orbit_sizes.len() == representatives.len(),
            located.len() == members.len(),
            images.len() <= members.len(),
            forall|x: u128| #[trigger]
                representatives@.contains(x) <==> parent@.contains(x)
                    && symmetry.is_representative(x as nat, x as nat) && symmetry.survives(
                    x as nat,
                ),
            forall|i: int|
                0 <= i < representatives.len() ==> #[trigger] orbit_sizes[i] == symmetry.orbit(
                    representatives[i] as nat,
                ).len(),
            forall|i: int|
                0 <= i < members.len() ==> half_located(
                    symmetry,
                    parent@,
                    members[i],
                    #[trigger] located[i],
                ),
            forall|i: int|
                0 <= i < images.len() ==> locates(symmetry, members[i], #[trigger] images[i])
                    && representatives@.contains(images[i].representative),
        decreases members.len() - images.len(),
    {
        let index: usize = images.len();
        let representative: u128 = located[index].0;
        let turn: usize = located[index].1;
        assert(half_located(symmetry, parent@, members[index as int], located[index as int]));
        assert(representatives@.contains(representative));
        let mut orbit_size: usize = 0;
        if let Ok(head) = states::state_index(&representatives, representative) {
            orbit_size = orbit_sizes[head];
        }
        images.push(SymmetryImage { representative, turn, orbit_size });
    }
    RingSector {
        states: representatives,
        orbit_sizes,
        members,
        images,
        momentum: symmetry.momentum,
        parity: symmetry.parity,
    }
}

/// Representative and phase of a surviving state, without the orbit size.
spec fn half_located(
    symmetry: RingSymmetry,
    parent: Seq<u128>,
    state: u128,
    place: (u128, usize),
) -> bool {
    let r = place.0 as nat;
    &&& parent.contains(place.0)
    &&& symmetry.is_representative(state as nat, r)
    &&& symmetry.is_representative(r, r)
    &&& symmetry.survives(r)
    &&& place.1 < 2 * symmetry.sites
    &&& forall|g: (nat, bool)|
        symmetry.element(g) && #[trigger] symmetry.act(g, r) == state ==> symmetry.turn(g, r)
            == place.1
}

/// The momentum brought into the range of the ring.
pub open spec fn normalized(momentum: Option<i32>, sites: usize) -> Option<usize> {
    match momentum {
        Some(k) => Some((k as int % sites as int) as usize),
        None => None,
    }
}

fn normalize_momentum(momentum: Option<i32>, sites: usize) -> (result: Option<usize>)
    requires
        0 < sites <= 128,
    ensures
        result == normalized(momentum, sites),
        result matches Some(k) ==> k < sites,
{
    match momentum {
        None => None,
        Some(value) => {
            let wide: i64 = value as i64;
            if wide >= 0 {
                Some((wide as u64 % sites as u64) as usize)
            } else {
                let distance: u64 = (-wide) as u64 % sites as u64;
                proof {
                    lemma_fundamental_div_mod(-wide, sites as int);
                    let q = (-wide) / (sites as int);
                    let n = sites as int;
                    let d = distance as int;
                    assert((-q) * n == -(n * q) && (-q - 1) * n == -(n * q) - n)
                        by (nonlinear_arith);
                    assert(-wide == n * q + d);
                    if distance == 0 {
                        lemma_fundamental_div_mod_converse(wide as int, sites as int, -q, 0);
                    } else {
                        lemma_fundamental_div_mod_converse(
                            wide as int,
                            sites as int,
                            -q - 1,
                            sites - distance,
                        );
                    }
                }
                if distance == 0 {
                    Some(0)
                } else {
                    Some(sites - distance as usize)
                }
            }
        },
    }
}

/// A parity and a momentum have a common one-dimensional sector.
pub open spec fn compatible(momentum: Option<usize>, parity: Option<i8>, sites: usize) -> bool {
    momentum is Some && parity is Some ==> momentum->0 == 0 || 2 * momentum->0 == sites
}

/// The ring symmetry of a spin or boson chain.
pub open spec fn spin_symmetry(
    sites: usize,
    base: u128,
    momentum: Option<i32>,
    parity: Option<i8>,
) -> RingSymmetry {
    RingSymmetry {
        sites,
        base,
        momentum: normalized(momentum, sites),
        parity,
        fermionic: false,
    }
}

/// The translation symmetry of a ring of spinless fermions.
pub open spec fn fermion_symmetry(sites: usize, momentum: Option<i32>) -> RingSymmetry {
    RingSymmetry {
        sites,
        base: 2,
        momentum: normalized(momentum, sites),
        parity: None,
        fermionic: true,
    }
}

/// The sector of a ring of spins with the given momentum and parity. The parent states have
/// to be closed under the symmetry.
pub fn spin_symmetry_sector(
    parent_states: &Vec<u128>,
    sites: usize,
    base: u128,
    momentum: Option<i32>,
    parity: Option<i8>,
) -> (result: Result<RingSector>)
    requires
        base >= 2,
        radix::place(base as nat, sites as nat) <= u128::MAX + 1,
        states::ascending(parent_states@),
        encodable(parent_states@, base as nat, sites as nat),
    ensures
        match result {
            Ok(sector) => {
                &&& sites > 0
                &&& parity matches Some(sign) ==> sign == 1 || sign == -1
                &&& compatible(normalized(momentum, sites), parity, sites)
                &&& closed_under(spin_symmetry(sites, base, momentum, parity), parent_states@)
                &&& sector.describes(
                    spin_symmetry(sites, base, momentum, parity),
                    parent_states@,
                )
                &&& sector.momentum == normalized(momentum, sites)
                &&& sector.parity == parity
                &&& momentum is Some || parity is Some ==> sector.states.len() > 0
            },
            Err(QmbedError::InvalidSector(_)) => sites == 0 || (parity is Some && parity->0 != 1
                && parity->0 != -1) || (compatible(normalized(momentum, sites), parity, sites) && (
            momentum is Some || parity is Some) && closed_under(
                spin_symmetry(sites, base, momentum, parity),
                parent_states@,
            ) && forall|x: u128| #[trigger]
                parent_states@.contains(x) ==> !spin_symmetry(
                    sites,
                    base,
                    momentum,
                    parity,
                ).survives(x as nat)),
            Err(QmbedError::IncompatibleSymmetry(_)) => sites > 0 && (parity matches Some(sign)
                ==> sign == 1 || sign == -1) && (!compatible(
                normalized(momentum, sites),
                parity,
                sites,
            ) || !closed_under(spin_symmetry(sites, base, momentum, parity), parent_states@)),
            Err(_) => false,
        },
{
    if sites == 0 {
        return Err(
            QmbedError::InvalidSector("symmetry sectors require at least one site".to_string()),
        );
    }
    if let Some(sign) = parity {
        if sign != -1 && sign != 1 {
            return Err(
                QmbedError::InvalidSector("parity must be either -1 or +1".to_string()),
            );
        }
    }
    proof {
        let plain = RingSymmetry { sites, base, momentum: None, parity: None, fermionic: false };
        plain.lemma_sites();
    }
    let wave: Option<usize> = normalize_momentum(momentum, sites);
    if let (Some(k), Some(_)) = (wave, parity) {
        if k != 0 && 2 * k != sites {
            return Err(
                QmbedError::IncompatibleSymmetry(
                    "parity can share a one-dimensional sector with momentum only at k=0 or k=pi".to_string(),
                ),
            );
        }
    }
    let symmetry = RingSymmetry { sites, base, momentum: wave, parity, fermionic: false };
    if !is_closed(parent_states, symmetry) {
        return Err(
            QmbedError::IncompatibleSymmetry(
                "symmetry map leaves the selected magnetization sector".to_string(),
            ),
        );
    }
    let sector = ring_sector(parent_states, symmetry);
    if (momentum.is_some() || parity.is_some()) && sector.states.len() == 0 {
        proof {
            assert forall|x: u128| #[trigger] parent_states@.contains(x) implies !symmetry.survives(
                x as nat,
            ) by {
                lemma_empty_sector(sector, symmetry, parent_states@, x);
            }
        }
        return Err(
            QmbedError::InvalidSector("the requested symmetry sector is empty".to_string()),
        );
    }
    Ok(sector)
}

pub proof fn lemma_empty_sector(
    sector: RingSector,
    symmetry: RingSymmetry,
    parent: Seq<u128>,
    x: u128,
)
    requires
        sector.describes(symmetry, parent),
        sector.states.len() == 0,
        parent.contains(x),
    ensures
        !symmetry.survives(x as nat),
{
    if symmetry.survives(x as nat) {
        assert(sector.members@.contains(x));
        let i = choose|i: int| 0 <= i < sector.members.len() && sector.members@[i] == x;
        assert(sector.states@.contains(sector.images[i].representative));
    }
}

/// The sector of a ring of spinless fermions with the given momentum, cut out of all
/// translates of the parent states.
pub fn fermion_translation_sector(
    parent_states: &Vec<u128>,
    sites: usize,
    momentum: Option<i32>,
) -> (result: Result<RingSector>)
    requires
        sites <= 128,
        states::ascending(parent_states@),
        encodable(parent_states@, 2, sites as nat),
    ensures
        match result {
            Ok(sector) => {
                &&& momentum is Some ==> sites > 0 && sector.states.len() > 0
                &&& momentum is Some ==> exists|whole: Seq<u128>| #[trigger]
                    completes(fermion_symmetry(sites, momentum), parent_states@, whole)
                        && sector.describes(fermion_symmetry(sites, momentum), whole)
                &&& momentum is Some && closed_under(
                    fermion_symmetry(sites, momentum),
                    parent_states@,
                ) ==> sector.describes(fermion_symmetry(sites, momentum), parent_states@)
                &&& momentum is None ==> sector.leaves_alone(parent_states@)
                &&& sector.parity is None
                &&& sector.momentum == normalized(momentum, sites)
            },
            Err(QmbedError::InvalidSector(_)) => momentum is Some && (sites == 0 || forall|x: u128| #[trigger]
                parent_states@.contains(x) ==> !fermion_symmetry(sites, momentum).survives(
                    x as nat,
                )),
            Err(_) => false,
        },
{
    if momentum.is_none() {
        return Ok(untouched(parent_states));
    }
    if sites == 0 {
        return Err(
            QmbedError::InvalidSector("translation sectors require at least one site".to_string()),
        );
    }
    proof {
        states::lemma_power_of_two(sites);
    }
    let wave: Option<usize> = normalize_momentum(momentum, sites);
    let symmetry = RingSymmetry { sites, base: 2, momentum: wave, parity: None, fermionic: true };
    let whole: Vec<u128> = if is_closed(parent_states, symmetry) {
        proof {
            assert forall|x: u128| #[trigger] parent_states@.contains(x) <==> reached(
                symmetry,
                parent_states@,
                x,
            ) by {
                if parent_states@.contains(x) {
                    symmetry.lemma_identity(x as nat);
                    assert(symmetry.act((0, false), x as nat) == x);
                }
                if reached(symmetry, parent_states@, x) {
                    let (p, g) = choose|p: u128, g: (nat, bool)|
                        parent_states@.contains(p) && symmetry.element(g)
                            && #[trigger] symmetry.act(g, p as nat) == x;
                    assert(parent_states@.contains(symmetry.act(g, p as nat) as u128));
                }
            }
        }
        untouched(parent_states).states
    } else {
        complete(parent_states, symmetry)
    };
    proof {
        images_are_closed(symmetry, parent_states@, whole@);
    }
    let sector = ring_sector(&whole, symmetry);
    proof {
        if closed_under(symmetry, parent_states@) {
            assert forall|x: u128| whole@.contains(x) <==> #[trigger] parent_states@.contains(
                x,
            ) by {}
            assert(sector.describes(symmetry, parent_states@));
        }
        assert(completes(symmetry, parent_states@, whole@));
    }
    if sector.states.len() == 0 {
        proof {
            assert forall|x: u128| #[trigger] parent_states@.contains(x) implies !symmetry.survives(
                x as nat,
            ) by {
                assert(whole@.contains(x));
                lemma_empty_sector(sector, symmetry, whole@, x);
            }
        }
        return Err(
            QmbedError::InvalidSector("the requested fermion momentum sector is empty".to_string()),
        );
    }
    Ok(sector)
}

/// The parent states themselves, each in an orbit of its own.
fn untouched(parent_states: &Vec<u128>) -> (sector: RingSector)
    ensures
        sector.leaves_alone(parent_states@),
        sector.momentum is None,
        sector.parity is None,
{
    let mut listed: Vec<u128> = Vec::new();
    let mut members: Vec<u128> = Vec::new();
    let mut orbit_sizes: Vec<usize> = Vec::new();
    let mut images: Vec<SymmetryImage> = Vec::new();
    while listed.len() < parent_states.len()
        invariant
            listed.len() <= parent_states.len(),
            listed@ == parent_states@.subrange(0, listed.len() as int),
            members@ == listed@,
            orbit_sizes.len() == listed.len(),
            images.len() == listed.len(),
            forall|i: int| 0 <= i < listed.len() ==> #[trigger] orbit_sizes[i] == 1,
            forall|i: int|
                0 <= i < listed.len() ==> #[trigger] images[i] == (SymmetryImage {
                    representative: parent_states[i],
                    turn: 0,
                    orbit_size: 1,
                }),
        decreases parent_states.len() - listed.len(),
    {
        let state: u128 = parent_states[listed.len()];
        listed.push(state);
        members.push(state);
        orbit_sizes.push(1);
        images.push(SymmetryImage { representative: state, turn: 0, orbit_size: 1 });
    }
    assert(parent_states@.subrange(0, listed.len() as int) =~= parent_states@);
    RingSector { states: listed, orbit_sizes, members, images, momentum: None, parity: None }
}

/// A translated fermion state, and whether the translation changes its sign.
pub fn translate_fermion_state(state: u128, shift: usize, sites: usize) -> (result: (u128, bool))
    requires
        0 < sites <= 128,
        state < radix::place(2, sites as nat),
    ensures
        result.0 == lattice::rotated_state(
            state as nat,
            (shift % sites) as nat,
            sites as nat,
            2,
        ),
        result.1 == fermion_symmetry(sites, None).exchanges_oddly(
            state as nat,
            (shift % sites) as nat,
        ),
{
    let step: usize = shift % sites;
    let ghost n = sites as nat;
    let ghost s = state as nat;
    proof {
        states::lemma_power_of_two(sites);
    }
    let translated: u128 = lattice::rotate_lattice_state(state, shift, sites, 2);
    if step == 0 {
        proof {
            let ds = radix::digits(s, 2, n);
            assert(ds.subrange(n as int, n as int) =~= Seq::<nat>::empty());
            lemma_mul_basics(radix::digit_sum(s, 2, n) as int);
        }
        return (translated, false);
    }
    proof {
        lattice::lemma_place_below(2, n, (n - step) as nat);
        lemma_top_digits(s, step as nat, n);
        radix::lemma_place_positive(2, (n - step) as nat);
    }
    let upper: u128 = state / lattice::power(2, sites - step);
    let wrapped_even: bool = has_even_digit_sum(upper, 2, step);
    let all_even: bool = has_even_digit_sum(state, 2, sites);
    proof {
        let w = radix::digit_sum(upper as nat, 2, step as nat);
        let all = radix::digit_sum(s, 2, n);
        lemma_product_parity(w as int, all - w);
    }
    (translated, !wrapped_even && all_even)
}

proof fn lemma_top_digits(s: nat, t: nat, n: nat)
    requires
        0 < t < n,
        s < radix::place(2, n),
    ensures
        radix::digits(s, 2, n).subrange(n - t, n as int) == radix::digits(
            s / radix::place(2, (n - t) as nat),
            2,
            t,
        ),
{
    let m = (n - t) as nat;
    let p = radix::place(2, m);
    let q = radix::place(2, t);
    radix::lemma_place_positive(2, m);
    radix::lemma_place_add(2, m, t);
    lemma_fundamental_div_mod(s as int, p as int);
    lemma_mod_bound(s as int, p as int);
    assert(s / p < q) by {
        lemma_multiply_divide_lt(s as int, p as int, q as int);
        lemma_mul_is_commutative(p as int, q as int);
    }
    radix::lemma_digits_split(s % p, s / p, 2, m, t);
    assert(radix::digits(s, 2, n).subrange(m as int, n as int) =~= radix::digits(s / p, 2, t));
}

} // verus!
