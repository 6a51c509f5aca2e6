//! Spin one half on lattices beyond one hundred and twenty-eight sites.

use vstd::prelude::*;
use vstd::arithmetic::div_mod::*;
use crate::basis::{Basis, Landing};
use crate::basis;
use crate::error::{QmbedError, Result};
use crate::error;
use crate::local::{
    Fault, LocalAlgebra, LocalFactor, LocalOutcome, Move, ProductOutcome, Reduction, Transition,
};
use crate::local;
use crate::wide::WideState;

verus! {

/// Word by word from the lowest, the first difference decides.
pub open spec fn precedes(a: Seq<u64>, b: Seq<u64>) -> bool {
    exists|k: int|
        0 <= k < a.len() && #[trigger] a[k] < b[k] && forall|j: int|
            0 <= j < k ==> #[trigger] a[j] == b[j]
}

/// Strictly increasing, word by word from the lowest.
pub open spec fn word_ascending<const WORDS: usize>(list: Seq<WideState<WORDS>>) -> bool {
    forall|i: int, j: int|
        0 <= i < j < list.len() ==> precedes((#[trigger] list[i])@, (#[trigger] list[j])@)
}

pub proof fn lemma_precedes_trans(a: Seq<u64>, b: Seq<u64>, c: Seq<u64>)
    requires
        a.len() == b.len(),
        b.len() == c.len(),
        precedes(a, b),
        precedes(b, c),
    ensures
        precedes(a, c),
{
    let k = choose|k: int|
        0 <= k < a.len() && #[trigger] a[k] < b[k] && forall|j: int|
            0 <= j < k ==> #[trigger] a[j] == b[j];
    let l = choose|l: int|
        0 <= l < b.len() && #[trigger] b[l] < c[l] && forall|j: int|
            0 <= j < l ==> #[trigger] b[j] == c[j];
    let m = if k <= l {
        k
    } else {
        l
    };
    assert(a[m] < c[m]) by {
        if k < l {
            assert(b[k] == c[k]);
        } else if l < k {
            assert(a[l] == b[l]);
        }
    }
    assert forall|j: int| 0 <= j < m implies #[trigger] a[j] == c[j] by {
        assert(a[j] == b[j]);
        assert(b[j] == c[j]);
    }
}

pub proof fn lemma_precedes_irreflexive(a: Seq<u64>, b: Seq<u64>)
    requires
        precedes(a, b),
    ensures
        a != b,
{
}

/// Of two different states one comes first.
pub proof fn lemma_precedes_total<const WORDS: usize>(a: WideState<WORDS>, b: WideState<WORDS>)
    ensures
        precedes(a@, b@) || precedes(b@, a@) || a == b,
{
    a.lemma_word_count();
    b.lemma_word_count();
    lemma_first_difference(a@, b@, 0);
    if a@ =~= b@ {
        assert forall|i: nat| i < 64 * WORDS implies #[trigger] a.bit_at(i) == b.bit_at(i) by {
            assert(a@[i as int / 64] == b@[i as int / 64]);
        }
        a.bits_determine(b);
    }
}

proof fn lemma_first_difference(a: Seq<u64>, b: Seq<u64>, from: int)
    requires
        a.len() == b.len(),
        0 <= from <= a.len(),
        forall|j: int| 0 <= j < from ==> #[trigger] a[j] == b[j],
    ensures
        precedes(a, b) || precedes(b, a) || a =~= b,
    decreases a.len() - from,
{
    if from < a.len() {
        if a[from] == b[from] {
            lemma_first_difference(a, b, from + 1);
        } else if a[from] < b[from] {
            assert(precedes(a, b));
        } else {
            assert(b[from] < a[from]);
            assert forall|j: int| 0 <= j < from implies #[trigger] b[j] == a[j] by {
                assert(a[j] == b[j]);
            }
            assert(precedes(b, a));
        }
    }
}

/// Whether the first state comes before the second.
pub fn is_word_before<const WORDS: usize>(a: &WideState<WORDS>, b: &WideState<WORDS>) -> (before: bool)
    ensures
        before == precedes(a@, b@),
{
    match word_order(a, b) {
        Side::Before => true,
        Side::Same => {
            proof {
                if precedes(a@, b@) {
                    lemma_precedes_irreflexive(a@, b@);
                }
            }
            false
        },
        Side::After => {
            proof {
                if precedes(a@, b@) {
                    lemma_precedes_trans(a@, b@, a@);
                    lemma_precedes_irreflexive(a@, a@);
                }
            }
            false
        },
    }
}

/// The order of two wide states.
#[derive(Clone, Copy, Debug, PartialEq, Eq, Structural)]
enum Side {
    Before,
    Same,
    After,
}

fn word_order<const WORDS: usize>(a: &WideState<WORDS>, b: &WideState<WORDS>) -> (side: Side)
    ensures
        match side {
            Side::Before => precedes(a@, b@),
            Side::Same => *a == *b,
            Side::After => precedes(b@, a@),
        },
{
    let x: &[u64; WORDS] = a.words();
    let y: &[u64; WORDS] = b.words();
    let mut index: usize = 0;
    while index < WORDS
        invariant
            x@ == a@,
            y@ == b@,
            index <= WORDS,
            forall|j: int| 0 <= j < index ==> #[trigger] a@[j] == b@[j],
        decreases WORDS - index,
    {
        let ghost k = index as int;
        if x[index] < y[index] {
            assert(a@[k] < b@[k]);
            return Side::Before;
        }
        if x[index] > y[index] {
            assert(b@[k] < a@[k]);
            assert forall|j: int| 0 <= j < k implies #[trigger] b@[j] == a@[j] by {
                assert(a@[j] == b@[j]);
            }
            return Side::After;
        }
        assert(a@[k] == b@[k]);
        index = index + 1;
    }
    proof {
        assert forall|i: nat| i < 64 * WORDS implies #[trigger] a.bit_at(i) == b.bit_at(i) by {
            assert(a@[i as int / 64] == b@[i as int / 64]);
        }
        a.bits_determine(*b);
    }
    Side::Same
}

proof fn lemma_push_contains<const WORDS: usize>(
    list: Seq<WideState<WORDS>>,
    item: WideState<WORDS>,
)
    ensures
        forall|x: WideState<WORDS>| #[trigger]
            list.push(item).contains(x) <==> list.contains(x) || x == item,
{
    assert forall|x: WideState<WORDS>| #[trigger] list.push(item).contains(x) <==> list.contains(
        x,
    ) || x == item by {
        if list.contains(x) {
            let j = choose|j: int| 0 <= j < list.len() && list[j] == x;
            assert(list.push(item)[j] == x);
        }
        assert(list.push(item)[list.len() as int] == item);
        if list.push(item).contains(x) {
            let j = choose|j: int| 0 <= j < list.push(item).len() && list.push(item)[j] == x;
            if j < list.len() {
                assert(list[j] == x);
            }
        }
    }
}

/// The union of two increasing lists, increasing again.
fn merge_states<const WORDS: usize>(
    left: &Vec<WideState<WORDS>>,
    right: &Vec<WideState<WORDS>>,
) -> (merged: Vec<WideState<WORDS>>)
    requires
        word_ascending(left@),
        word_ascending(right@),
    ensures
        word_ascending(merged@),
        forall|x: WideState<WORDS>| #[trigger]
            merged@.contains(x) <==> left@.contains(x) || right@.contains(x),
{
    let mut merged: Vec<WideState<WORDS>> = Vec::new();
    let mut i: usize = 0;
    let mut j: usize = 0;
    proof {
        assert(left@.subrange(0, 0) =~= Seq::<WideState<WORDS>>::empty());
        assert(right@.subrange(0, 0) =~= Seq::<WideState<WORDS>>::empty());
    }
    while i < left.len() || j < right.len()
        invariant
            i <= left.len(),
            j <= right.len(),
            word_ascending(left@),
            word_ascending(right@),
            word_ascending(merged@),
            forall|x: WideState<WORDS>| #[trigger]
                merged@.contains(x) <==> left@.subrange(0, i as int).contains(x)
                    || right@.subrange(0, j as int).contains(x),
            forall|k: int, l: int|
                0 <= k < merged.len() && i <= l < left.len() ==> precedes(
                    (#[trigger] merged[k])@,
                    (#[trigger] left[l])@,
                ),
            forall|k: int, l: int|
                0 <= k < merged.len() && j <= l < right.len() ==> precedes(
                    (#[trigger] merged[k])@,
                    (#[trigger] right[l])@,
                ),
        decreases left.len() - i + right.len() - j,
    {
        let side: Side = if i >= left.len() {
            Side::After
        } else if j >= right.len() {
            Side::Before
        } else {
            word_order(&left[i], &right[j])
        };
        let take_left: bool = side == Side::Before || side == Side::Same;
        let take_right: bool = side == Side::After || side == Side::Same;
        let item: WideState<WORDS> = if take_left {
            left[i]
        } else {
            right[j]
        };
        let ghost before = merged@;
        let ghost li = i as int;
        let ghost rj = j as int;
        merged.push(item);
        if take_left {
            i = i + 1;
        }
        if take_right {
            j = j + 1;
        }
        proof {
            lemma_push_contains(before, item);
            if take_left {
                assert(left@.subrange(0, li + 1) =~= left@.subrange(0, li).push(item));
                lemma_push_contains(left@.subrange(0, li), item);
            }
            if take_right {
                assert(right@.subrange(0, rj + 1) =~= right@.subrange(0, rj).push(item));
                lemma_push_contains(right@.subrange(0, rj), item);
            }
            assert forall|k: int, l: int| 0 <= k < merged.len() && i <= l < left.len() implies precedes(
                (#[trigger] merged[k])@,
                (#[trigger] left[l])@,
            ) by {
                if k < before.len() {
                    assert(merged[k] == before[k]);
                } else if take_left {
                    assert(precedes(left[li]@, left[l]@));
                } else {
                    assert(precedes(right[rj]@, left[li]@));
                    if l > li {
                        right[rj].lemma_word_count();
                        left[li].lemma_word_count();
                        left[l].lemma_word_count();
                        lemma_precedes_trans(right[rj]@, left[li]@, left[l]@);
                    }
                }
            }
            assert forall|k: int, l: int|
                0 <= k < merged.len() && j <= l < right.len() implies precedes(
                (#[trigger] merged[k])@,
                (#[trigger] right[l])@,
            ) by {
                if k < before.len() {
                    assert(merged[k] == before[k]);
                } else if take_right {
                    assert(precedes(right[rj]@, right[l]@));
                } else {
                    assert(precedes(left[li]@, right[rj]@));
                    if l > rj {
                        left[li].lemma_word_count();
                        right[rj].lemma_word_count();
                        right[l].lemma_word_count();
                        lemma_precedes_trans(left[li]@, right[rj]@, right[l]@);
                    }
                }
            }
        }
    }
    proof {
        assert(left@.subrange(0, i as int) =~= left@);
        assert(right@.subrange(0, j as int) =~= right@);
    }
    merged
}

/// The states of a part of a list in increasing order, each once.
fn sorted_states<const WORDS: usize>(list: &Vec<WideState<WORDS>>, from: usize, to: usize) -> (sorted:
    Vec<WideState<WORDS>>)
    requires
        from <= to <= list.len(),
    ensures
        word_ascending(sorted@),
        forall|x: WideState<WORDS>| #[trigger]
            sorted@.contains(x) <==> list@.subrange(from as int, to as int).contains(x),
    decreases to - from,
{
    let ghost part = list@.subrange(from as int, to as int);
    if to - from <= 1 {
        let mut sorted: Vec<WideState<WORDS>> = Vec::new();
        if from < to {
            sorted.push(list[from]);
            assert(part =~= sorted@);
        } else {
            assert(part =~= sorted@);
        }
        return sorted;
    }
    let middle: usize = from + (to - from) / 2;
    let left: Vec<WideState<WORDS>> = sorted_states(list, from, middle);
    let right: Vec<WideState<WORDS>> = sorted_states(list, middle, to);
    let sorted: Vec<WideState<WORDS>> = merge_states(&left, &right);
    proof {
        let a = list@.subrange(from as int, middle as int);
        let b = list@.subrange(middle as int, to as int);
        assert(part =~= a + b);
        assert forall|x: WideState<WORDS>| #[trigger] sorted@.contains(x) <==> part.contains(x) by {
            if a.contains(x) {
                let k = choose|k: int| 0 <= k < a.len() && a[k] == x;
                assert(part[k] == x);
            }
            if b.contains(x) {
                let k = choose|k: int| 0 <= k < b.len() && b[k] == x;
                assert(part[a.len() + k] == x);
            }
            if part.contains(x) {
                let k = choose|k: int| 0 <= k < part.len() && part[k] == x;
                if k < a.len() {
                    assert(a[k] == x);
                } else {
                    assert(b[k - a.len()] == x);
                }
            }
        }
    }
    sorted
}

/// A state of `sites` bits with the given number of ones.
pub open spec fn in_wide_sector<const WORDS: usize>(
    state: WideState<WORDS>,
    sites: nat,
    particles: Option<usize>,
) -> bool {
    &&& forall|i: nat| sites <= i < 64 * WORDS ==> !#[trigger] state.bit_at(i)
    &&& particles matches Some(count) ==> state.ones_between(0, sites) == count
}

/// States that extend a prefix below `next` by `remaining` ones from `next` upwards.
spec fn extends<const WORDS: usize>(
    state: WideState<WORDS>,
    prefix: WideState<WORDS>,
    next: nat,
    sites: nat,
    remaining: nat,
) -> bool {
    &&& forall|i: nat| i < next ==> #[trigger] state.bit_at(i) == prefix.bit_at(i)
    &&& forall|i: nat| sites <= i < 64 * WORDS ==> !#[trigger] state.bit_at(i)
    &&& state.ones_between(next, sites) == remaining
}

proof fn lemma_ones_split<const WORDS: usize>(s: WideState<WORDS>, a: nat, b: nat, c: nat)
    requires
        a <= b <= c,
    ensures
        s.ones_between(a, c) == s.ones_between(a, b) + s.ones_between(b, c),
    decreases c,
{
    if b < c {
        lemma_ones_split(s, a, b, (c - 1) as nat);
    }
}

proof fn lemma_ones_bound<const WORDS: usize>(s: WideState<WORDS>, a: nat, b: nat)
    requires
        a <= b,
    ensures
        s.ones_between(a, b) <= b - a,
    decreases b,
{
    if a < b {
        lemma_ones_bound(s, a, (b - 1) as nat);
    }
}

proof fn lemma_no_ones<const WORDS: usize>(s: WideState<WORDS>, a: nat, b: nat)
    ensures
        s.ones_between(a, b) == 0 <==> forall|i: nat| a <= i < b ==> !#[trigger] s.bit_at(i),
    decreases b,
{
    if a < b {
        lemma_no_ones(s, a, (b - 1) as nat);
        if s.ones_between(a, b) == 0 {
            assert forall|i: nat| a <= i < b implies !#[trigger] s.bit_at(i) by {
                if i == b - 1 {
                    assert(!s.bit_at((b - 1) as nat));
                }
            }
        }
        if forall|i: nat| a <= i < b ==> !#[trigger] s.bit_at(i) {
            assert(!s.bit_at((b - 1) as nat));
        }
    }
}

/// Appends every state that extends the prefix by `remaining` ones.
fn enumerate_ones<const WORDS: usize>(
    next: usize,
    sites: usize,
    remaining: usize,
    prefix: WideState<WORDS>,
    output: &mut Vec<WideState<WORDS>>,
)
    requires
        WORDS * 64 <= usize::MAX,
        next <= sites <= 64 * WORDS,
        forall|i: nat| next <= i < 64 * WORDS ==> !#[trigger] prefix.bit_at(i),
    ensures
        forall|x: WideState<WORDS>| #[trigger]
            final(output)@.contains(x) <==> old(output)@.contains(x) || extends(
                x,
                prefix,
                next as nat,
                sites as nat,
                remaining as nat,
            ),
    decreases remaining,
{
    let ghost start = output@;
    if remaining == 0 {
        output.push(prefix);
        proof {
            lemma_push_contains(start, prefix);
            lemma_no_ones(prefix, next as nat, sites as nat);
            assert forall|x: WideState<WORDS>|
                extends(x, prefix, next as nat, sites as nat, 0) implies x == prefix by {
                lemma_no_ones(x, next as nat, sites as nat);
                assert forall|i: nat| i < 64 * WORDS implies #[trigger] x.bit_at(i)
                    == prefix.bit_at(i) by {}
                x.bits_determine(prefix);
            }
            assert(extends(prefix, prefix, next as nat, sites as nat, 0));
        }
        return;
    }
    if sites - next < remaining {
        proof {
            assert forall|x: WideState<WORDS>|
                !extends(x, prefix, next as nat, sites as nat, remaining as nat) by {
                lemma_ones_bound(x, next as nat, sites as nat);
            }
        }
        return;
    }
    let last: usize = sites - remaining;
    let mut site: usize = next;
    while site <= last
        invariant
            WORDS * 64 <= usize::MAX,
            remaining > 0,
            last == sites - remaining,
            next <= site <= last + 1,
            sites <= 64 * WORDS,
            forall|i: nat| next <= i < 64 * WORDS ==> !#[trigger] prefix.bit_at(i),
            forall|x: WideState<WORDS>| #[trigger]
                output@.contains(x) <==> start.contains(x) || (extends(
                    x,
                    prefix,
                    next as nat,
                    sites as nat,
                    remaining as nat,
                ) && x.ones_between(next as nat, site as nat) > 0),
        decreases last + 1 - site,
    {
        let ghost before = output@;
        if let Ok(extended) = prefix.with_bit(site, true) {
            enumerate_ones(site + 1, sites, remaining - 1, extended, output);
            proof {
                assert forall|x: WideState<WORDS>| #[trigger] output@.contains(x)
                    <==> start.contains(x) || (extends(
                    x,
                    prefix,
                    next as nat,
                    sites as nat,
                    remaining as nat,
                ) && x.ones_between(next as nat, (site + 1) as nat) > 0) by {
                    lemma_first_choice(
                        x,
                        prefix,
                        extended,
                        next as nat,
                        site as nat,
                        sites as nat,
                        remaining as nat,
                    );
                    assert(before.contains(x) <==> start.contains(x) || (extends(
                        x,
                        prefix,
                        next as nat,
                        sites as nat,
                        remaining as nat,
                    ) && x.ones_between(next as nat, site as nat) > 0));
                }
            }
        }
        site = site + 1;
    }
    proof {
        assert forall|x: WideState<WORDS>| #[trigger] output@.contains(x) <==> start.contains(x)
            || extends(x, prefix, next as nat, sites as nat, remaining as nat) by {
            if extends(x, prefix, next as nat, sites as nat, remaining as nat) {
                lemma_ones_split(x, next as nat, site as nat, sites as nat);
                lemma_ones_bound(x, site as nat, sites as nat);
            }
        }
    }
}

/// An extension whose lowest new one is at `site` extends the prefix with that one.
proof fn lemma_first_choice<const WORDS: usize>(
    x: WideState<WORDS>,
    prefix: WideState<WORDS>,
    extended: WideState<WORDS>,
    next: nat,
    site: nat,
    sites: nat,
    remaining: nat,
)
    requires
        next <= site < sites <= 64 * WORDS,
        remaining > 0,
        forall|i: nat| next <= i < 64 * WORDS ==> !#[trigger] prefix.bit_at(i),
        forall|i: nat|
            i < 64 * WORDS ==> #[trigger] extended.bit_at(i) == (i == site || prefix.bit_at(i)),
    ensures
        (extends(x, prefix, next, sites, remaining) && x.ones_between(next, site + 1) > 0) <==> ((
        extends(x, prefix, next, sites, remaining) && x.ones_between(next, site) > 0) || extends(
            x,
            extended,
            site + 1,
            sites,
            (remaining - 1) as nat,
        )),
{
    let one_more = x.ones_between(next, site) + (if x.bit_at(site) {
        1nat
    } else {
        0
    });
    assert(x.ones_between(next, site + 1) == one_more);
    lemma_ones_split(x, next, site + 1, sites);
    if extends(x, prefix, next, sites, remaining) && x.ones_between(next, site + 1) > 0
        && x.ones_between(next, site) == 0 {
        lemma_no_ones(x, next, site);
        assert forall|i: nat| i < site + 1 implies #[trigger] x.bit_at(i) == extended.bit_at(i) by {
            if i < next {
                assert(x.bit_at(i) == prefix.bit_at(i));
            }
        }
    }
    if extends(x, extended, site + 1, sites, (remaining - 1) as nat) {
        assert(x.bit_at(site) == extended.bit_at(site));
        assert forall|i: nat| next <= i < site implies !#[trigger] x.bit_at(i) by {
            assert(x.bit_at(i) == extended.bit_at(i));
        }
        lemma_no_ones(x, next, site);
        assert forall|i: nat| i < next implies #[trigger] x.bit_at(i) == prefix.bit_at(i) by {
            assert(x.bit_at(i) == extended.bit_at(i));
        }
    }
}

/// Spins one half on a lattice wider than machine words.
#[derive(Debug)]
pub struct WideSpinBasis<const WORDS: usize> {
    sites: usize,
    particles: Option<usize>,
    pauli: bool,
    states: Vec<WideState<WORDS>>,
}

pub type WideSpinBasis256 = WideSpinBasis<4>;

pub type WideSpinBasis1024 = WideSpinBasis<16>;

pub type WideSpinBasis4096 = WideSpinBasis<64>;

pub type WideSpinBasis16384 = WideSpinBasis<256>;

impl<const WORDS: usize> WideSpinBasis<WORDS> {
    pub closed spec fn spec_sites(self) -> usize {
        self.sites
    }

    pub closed spec fn spec_particles(self) -> Option<usize> {
        self.particles
    }

    pub closed spec fn spec_pauli(self) -> bool {
        self.pauli
    }

    pub closed spec fn spec_states(self) -> Seq<WideState<WORDS>> {
        self.states@
    }

    /// The basis lists exactly the selected sector.
    pub open spec fn wf(self) -> bool {
        &&& WORDS * 64 <= usize::MAX
        &&& 0 < self.spec_sites() <= 64 * WORDS
        &&& word_ascending(self.spec_states())
        &&& forall|x: WideState<WORDS>| #[trigger]
            self.spec_states().contains(x) <==> in_wide_sector(
                x,
                self.spec_sites() as nat,
                self.spec_particles(),
            )
    }

    /// Enumerates the states with the given number of ones, or all states of a small
    /// lattice.
    pub fn new(sites: usize, particles: Option<usize>, pauli: bool) -> (result: Result<Self>)
        requires
            WORDS * 64 <= usize::MAX,
        ensures
            match result {
                Ok(basis) => {
                    &&& basis.wf()
                    &&& basis.spec_sites() == sites
                    &&& basis.spec_particles() == particles
                    &&& basis.spec_pauli() == pauli
                    &&& particles matches Some(count) ==> count <= sites
                    &&& particles is None ==> sites <= 24
                },
                Err(QmbedError::UnsupportedBackend(_)) => sites == 0 || sites > 64 * WORDS,
                Err(QmbedError::InvalidSector(_)) => 0 < sites <= 64 * WORDS && (particles matches
                    Some(count) && count > sites),
                Err(QmbedError::InvalidOptions(_)) => 0 < sites <= 64 * WORDS && particles is None
                    && sites > 24,
                Err(_) => false,
            },
    {
        if sites == 0 || sites > WideState::<WORDS>::capacity_bits() {
            return Err(
                QmbedError::UnsupportedBackend(
                    error::weave(
                        vec!["wide spin basis needs 1..=", " sites"],
                        vec![WideState::<WORDS>::capacity_bits()],
                    ),
                ),
            );
        }
        let zero = WideState::<WORDS>::zero();
        let mut found: Vec<WideState<WORDS>> = Vec::new();
        match particles {
            Some(count) => {
                if count > sites {
                    return Err(
                        QmbedError::InvalidSector(
                            "particle count exceeds the wide spin site count".to_string(),
                        ),
                    );
                }
                enumerate_ones(0, sites, count, zero, &mut found);
            },
            None => {
                if sites > 24 {
                    return Err(
                        QmbedError::InvalidOptions(
                            "an unrestricted wide spin basis above 24 sites is not enumerable; select a particle sector".to_string(),
                        ),
                    );
                }
                let mut count: usize = 0;
                while count <= sites
                    invariant
                        WORDS * 64 <= usize::MAX,
                        0 < sites <= 24,
                        sites <= 64 * WORDS,
                        count <= sites + 1,
                        forall|i: nat| i < 64 * WORDS ==> !#[trigger] zero.bit_at(i),
                        forall|x: WideState<WORDS>| #[trigger]
                            found@.contains(x) <==> in_wide_sector(x, sites as nat, None)
                                && x.ones_between(0, sites as nat) < count,
                    decreases sites + 1 - count,
                {
                    enumerate_ones(0, sites, count, zero, &mut found);
                    count = count + 1;
                }
            },
        }
        let states: Vec<WideState<WORDS>> = sorted_states(&found, 0, found.len());
        proof {
            assert(found@.subrange(0, found.len() as int) =~= found@);
            assert forall|x: WideState<WORDS>| #[trigger] states@.contains(x) <==> in_wide_sector(
                x,
                sites as nat,
                particles,
            ) by {
                lemma_ones_bound(x, 0, sites as nat);
            }
        }
        Ok(WideSpinBasis { sites, particles, pauli, states })
    }

    pub fn sites(&self) -> (sites: usize)
        ensures
            sites == self.spec_sites(),
    {
        self.sites
    }

    pub fn particles(&self) -> (particles: Option<usize>)
        ensures
            particles == self.spec_particles(),
    {
        self.particles
    }
}

/// The factor of a component of the spin, halved without the Pauli convention.
pub open spec fn component_factor(quarter_turns: u8, pauli: bool) -> LocalFactor {
    LocalFactor { quarter_turns, numerator: 1, halved: !pauli, radicand: 1 }
}

/// `to` is `from` with one bit set to the given value.
pub open spec fn bit_replaced<const WORDS: usize>(
    from: WideState<WORDS>,
    to: WideState<WORDS>,
    site: nat,
    value: bool,
) -> bool {
    forall|i: nat|
        i < 64 * WORDS ==> #[trigger] to.bit_at(i) == (if i == site {
            value
        } else {
            from.bit_at(i)
        })
}

/// The state with one bit set to the given value.
pub open spec fn replaced<const WORDS: usize>(from: WideState<WORDS>, site: nat, value: bool) -> WideState<
    WORDS,
> {
    choose|to: WideState<WORDS>| bit_replaced(from, to, site, value)
}

/// What a spin operator does to one site of a wide state.
pub open spec fn wide_moves<const WORDS: usize>(
    sites: usize,
    pauli: bool,
    state: WideState<WORDS>,
    symbol: char,
    site: usize,
) -> LocalOutcome<WideState<WORDS>> {
    let up = state.bit_at(site as nat);
    let flipped = replaced(state, site as nat, !up);
    if site >= sites {
        Err(Fault::Site { site, sites })
    } else if symbol == 'I' {
        Ok(seq![(state, None)])
    } else if symbol == 'n' {
        if up {
            Ok(seq![(state, None)])
        } else {
            Ok(Seq::empty())
        }
    } else if symbol == 'z' {
        Ok(seq![(state, Some(component_factor(if up { 0 } else { 2 }, pauli)))])
    } else if symbol == '+' {
        if up {
            Ok(Seq::empty())
        } else {
            Ok(seq![(flipped, None)])
        }
    } else if symbol == '-' {
        if up {
            Ok(seq![(flipped, None)])
        } else {
            Ok(Seq::empty())
        }
    } else if symbol == 'x' {
        Ok(seq![(flipped, Some(component_factor(0, pauli)))])
    } else if symbol == 'y' {
        Ok(seq![(flipped, Some(component_factor(if up { 1 } else { 3 }, pauli)))])
    } else {
        Err(Fault::Symbol)
    }
}

impl<const WORDS: usize> LocalAlgebra for WideSpinBasis<WORDS> {
    type State = WideState<WORDS>;

    open spec fn ready(&self) -> bool {
        WORDS * 64 <= usize::MAX && self.spec_sites() <= 64 * WORDS
    }

    open spec fn valid_state(&self, state: WideState<WORDS>) -> bool {
        true
    }

    open spec fn moves(
        &self,
        state: WideState<WORDS>,
        symbol: char,
        position: nat,
        site: usize,
    ) -> LocalOutcome<WideState<WORDS>> {
        wide_moves(self.spec_sites(), self.spec_pauli(), state, symbol, site)
    }

    fn apply_symbol(
        &self,
        state: WideState<WORDS>,
        symbol: char,
        position: usize,
        site: usize,
    ) -> (result: Result<Vec<Move<WideState<WORDS>>>>) {
        if site >= self.sites {
            return Err(QmbedError::InvalidSite { site, sites: self.sites });
        }
        let up: bool = match state.bit(site) {
            Ok(up) => up,
            Err(error) => {
                return Err(error);
            },
        };
        let flipped: WideState<WORDS> = match state.with_bit(site, !up) {
            Ok(flipped) => flipped,
            Err(error) => {
                return Err(error);
            },
        };
        proof {
            assert(bit_replaced(state, flipped, site as nat, !up));
            let other = replaced(state, site as nat, !up);
            assert(bit_replaced(state, other, site as nat, !up));
            assert forall|i: nat| i < 64 * WORDS implies #[trigger] flipped.bit_at(i)
                == other.bit_at(i) by {}
            flipped.bits_determine(other);
        }
        let ghost expected = wide_moves(self.sites, self.pauli, state, symbol, site);
        let halved: bool = !self.pauli;
        let mut moves: Vec<Move<WideState<WORDS>>> = Vec::new();
        if symbol == 'I' {
            moves.push(Move { state, factor: None });
        } else if symbol == 'n' {
            if up {
                moves.push(Move { state, factor: None });
            }
        } else if symbol == 'z' {
            let quarter_turns: u8 = if up {
                0
            } else {
                2
            };
            moves.push(
                Move {
                    state,
                    factor: Some(
                        LocalFactor { quarter_turns, numerator: 1, halved, radicand: 1 },
                    ),
                },
            );
        } else if symbol == '+' {
            if !up {
                moves.push(Move { state: flipped, factor: None });
            }
        } else if symbol == '-' {
            if up {
                moves.push(Move { state: flipped, factor: None });
            }
        } else if symbol == 'x' || symbol == 'y' {
            let quarter_turns: u8 = if symbol == 'x' {
                0
            } else if up {
                1
            } else {
                3
            };
            moves.push(
                Move {
                    state: flipped,
                    factor: Some(
                        LocalFactor { quarter_turns, numerator: 1, halved, radicand: 1 },
                    ),
                },
            );
        } else {
            return Err(QmbedError::InvalidOperator(symbol.to_string()));
        }
        assert(local::moves_view(moves@) =~= expected->Ok_0);
        Ok(moves)
    }
}

impl<const WORDS: usize> Basis for WideSpinBasis<WORDS> {
    type State = WideState<WORDS>;

    open spec fn well_formed(&self) -> bool {
        self.wf()
    }

    open spec fn listed(&self) -> Seq<WideState<WORDS>> {
        self.spec_states()
    }

    open spec fn accepts(&self, state: WideState<WORDS>) -> bool {
        true
    }

    open spec fn action(
        &self,
        state: WideState<WORDS>,
        symbols: Seq<char>,
        split: Option<usize>,
        sites: Seq<usize>,
    ) -> ProductOutcome<WideState<WORDS>> {
        local::operator_action(self, state, symbols, sites)
    }

    open spec fn distinct(&self) -> bool {
        true
    }

    open spec fn seat(&self, state: WideState<WORDS>) -> int {
        self.listed().index_of(state)
    }

    proof fn lemma_seat(&self, state: WideState<WORDS>) {
    }

    proof fn lemma_distinct(&self) {
        let list = self.states@;
        assert forall|i: int, j: int|
            0 <= i < list.len() && 0 <= j < list.len() && i != j implies list[i] != list[j] by {
            if i < j {
                lemma_precedes_irreflexive(list[i]@, list[j]@);
            } else {
                lemma_precedes_irreflexive(list[j]@, list[i]@);
            }
        }
    }

    open spec fn orbit_weight(&self, state: WideState<WORDS>) -> nat {
        1
    }

    open spec fn landing(&self, state: WideState<WORDS>, source_orbit: usize) -> Option<Landing> {
        if self.spec_states().contains(state) {
            Some(
                Landing {
                    index: self.spec_states().index_of(state) as usize,
                    reduction: basis::no_reduction(),
                },
            )
        } else {
            None
        }
    }

    open spec fn two_parts(&self) -> bool {
        false
    }

    fn needs_separator(&self) -> (needed: bool) {
        false
    }

    open spec fn orbit_reduced(&self) -> bool {
        false
    }

    fn is_orbit_reduced(&self) -> (reduced: bool) {
        false
    }

    fn len(&self) -> (length: usize) {
        self.states.len()
    }

    fn state(&self, index: usize) -> (result: Result<WideState<WORDS>>) {
        if index < self.states.len() {
            Ok(self.states[index])
        } else {
            Err(QmbedError::StateNotInBasis)
        }
    }

    fn index(&self, state: WideState<WORDS>) -> (result: Result<usize>) {
        let mut low: usize = 0;
        let mut high: usize = self.states.len();
        while low < high
            invariant
                self.well_formed(),
                low <= high <= self.states.len(),
                word_ascending(self.states@),
                forall|i: int| 0 <= i < low ==> precedes((#[trigger] self.states[i])@, state@),
                forall|i: int|
                    high <= i < self.states.len() ==> precedes(
                        state@,
                        (#[trigger] self.states[i])@,
                    ),
            decreases high - low,
        {
            let middle: usize = low + (high - low) / 2;
            let ghost m = middle as int;
            match word_order(&self.states[middle], &state) {
                Side::Same => {
                    proof {
                        self.lemma_distinct();
                        basis::lemma_one_place(self.states@, m);
                    }
                    return Ok(middle);
                },
                Side::Before => {
                    proof {
                        assert forall|i: int| 0 <= i <= m implies precedes(
                            (#[trigger] self.states[i])@,
                            state@,
                        ) by {
                            if i < m {
                                self.states[i].lemma_word_count();
                                self.states[m].lemma_word_count();
                                state.lemma_word_count();
                                lemma_precedes_trans(
                                    self.states[i]@,
                                    self.states[m]@,
                                    state@,
                                );
                            }
                        }
                    }
                    low = middle + 1;
                },
                Side::After => {
                    proof {
                        assert forall|i: int| m <= i < self.states.len() implies precedes(
                            state@,
                            (#[trigger] self.states[i])@,
                        ) by {
                            if m < i {
                                self.states[i].lemma_word_count();
                                self.states[m].lemma_word_count();
                                state.lemma_word_count();
                                lemma_precedes_trans(
                                    state@,
                                    self.states[m]@,
                                    self.states[i]@,
                                );
                            }
                        }
                    }
                    high = middle;
                },
            }
        }
        proof {
            if self.states@.contains(state) {
                let k = choose|k: int| 0 <= k < self.states.len() && self.states@[k] == state;
                if k < low {
                    lemma_precedes_irreflexive(self.states[k]@, state@);
                } else {
                    lemma_precedes_irreflexive(state@, self.states[k]@);
                }
            }
        }
        Err(QmbedError::StateNotInBasis)
    }

    fn unreduced_transitions(
        &self,
        state: WideState<WORDS>,
        symbols: &[char],
        split: Option<usize>,
        sites: &[usize],
    ) -> (result: Result<Vec<Transition<WideState<WORDS>>>>) {
        local::apply_product(self, state, symbols, sites)
    }

    fn transition_orbit_size(&self, state: WideState<WORDS>) -> (result: Result<usize>) {
        Ok(1)
    }

    open spec fn preservation(&self, operator: Seq<char>) -> std::result::Result<bool, Fault> {
        basis::keeps_total(self.spec_particles() is Some, operator)
    }

    fn operator_preserves_particle_sector(&self, operator: &str) -> (result: Result<bool>) {
        basis::total_is_kept(self.particles.is_some(), operator)
    }

    fn index_transition(&self, state: WideState<WORDS>, source_orbit_size: usize) -> (result:
        Option<Landing>) {
        match self.index(state) {
            Ok(index) => {
                proof {
                    self.lemma_distinct();
                    let list = self.states@;
                    assert(list[index as int] == state);
                    assert(list[list.index_of(state)] == state);
                }
                Some(
                    Landing {
                        index,
                        reduction: Reduction {
                            turn: 0,
                            steps: 1,
                            given: None,
                            source_orbit: 1,
                            target_orbit: 1,
                        },
                    },
                )
            },
            Err(_) => None,
        }
    }
}

} // verus!
