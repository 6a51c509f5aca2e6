//! Basis integers wider than machine words.

use vstd::prelude::*;
use vstd::arithmetic::div_mod::*;
use vstd::arithmetic::mul::*;
use crate::error::{QmbedError, Result};
use crate::radix;

verus! {

broadcast use vstd::array::group_array_axioms;

/// Storage that holds every state of a lattice.
#[derive(Clone, Copy, Debug, PartialEq, Eq, Structural)]
pub enum StateStorage {
    U128,
    U256,
    U1024,
    U4096,
    U16384,
}

/// An integer of `64 * WORDS` bits, least significant word first.
#[derive(Clone, Copy, Debug, PartialEq, Eq, Hash, PartialOrd, Ord)]
pub struct WideState<const WORDS: usize> {
    words: [u64; WORDS],
}

pub type U256 = WideState<4>;

pub type U1024 = WideState<16>;

pub type U4096 = WideState<64>;

pub type U16384 = WideState<256>;

pub type UInt256 = U256;

pub type UInt1024 = U1024;

pub type UInt4096 = U4096;

pub type UInt16384 = U16384;

/// Bit `j` of a word.
pub open spec fn word_bit(word: u64, j: nat) -> bool {
    (word >> (j as u64)) & 1 == 1
}

proof fn lemma_word_test(w: u64, k: u64)
    requires
        k < 64,
    ensures
        (w & (1u64 << k) != 0) == word_bit(w, k as nat),
        !word_bit(0, k as nat),
{
    assert((w & (1u64 << k) != 0) == ((w >> k) & 1 == 1)) by (bit_vector)
        requires
            k < 64,
    ;
    assert((0u64 >> k) & 1 != 1) by (bit_vector);
}

proof fn lemma_word_update(w: u64, k: u64, j: u64)
    requires
        k < 64,
        j < 64,
    ensures
        word_bit(w | (1u64 << k), j as nat) == (j == k || word_bit(w, j as nat)),
        word_bit(w & !(1u64 << k), j as nat) == (j != k && word_bit(w, j as nat)),
{
    assert((((w | (1u64 << k)) >> j) & 1 == 1) == (j == k || (w >> j) & 1 == 1)) by (bit_vector)
        requires
            k < 64,
            j < 64,
    ;
    assert((((w & !(1u64 << k)) >> j) & 1 == 1) == (j != k && (w >> j) & 1 == 1)) by (bit_vector)
        requires
            k < 64,
            j < 64,
    ;
}

proof fn lemma_word_logic(a: u64, b: u64, j: u64)
    requires
        j < 64,
    ensures
        word_bit(a & b, j as nat) == (word_bit(a, j as nat) && word_bit(b, j as nat)),
        word_bit(a | b, j as nat) == (word_bit(a, j as nat) || word_bit(b, j as nat)),
        word_bit(a ^ b, j as nat) == (word_bit(a, j as nat) != word_bit(b, j as nat)),
        word_bit(!a, j as nat) == !word_bit(a, j as nat),
{
    assert((((a & b) >> j) & 1 == 1) == ((a >> j) & 1 == 1 && (b >> j) & 1 == 1)) by (bit_vector);
    assert((((a | b) >> j) & 1 == 1) == ((a >> j) & 1 == 1 || (b >> j) & 1 == 1)) by (bit_vector);
    assert((((a ^ b) >> j) & 1 == 1) == (((a >> j) & 1 == 1) != ((b >> j) & 1 == 1)))
        by (bit_vector);
    assert(((!a >> j) & 1 == 1) == !((a >> j) & 1 == 1)) by (bit_vector)
        requires
            j < 64,
    ;
}

proof fn lemma_word_shift(a: u64, b: u64, s: u64, j: u64)
    requires
        0 < s < 64,
        j < 64,
    ensures
        word_bit((a << s) | (b >> ((64 - s) as u64)), j as nat) == (if j >= s {
            word_bit(a, (j - s) as nat)
        } else {
            word_bit(b, (64 - s + j) as nat)
        }),
        word_bit((a >> s) | (b << ((64 - s) as u64)), j as nat) == (if j + s < 64 {
            word_bit(a, (j + s) as nat)
        } else {
            word_bit(b, (j + s - 64) as nat)
        }),
        word_bit(a << s, j as nat) == (j >= s && word_bit(a, (j - s) as nat)),
        word_bit(a >> s, j as nat) == (j + s < 64 && word_bit(a, (j + s) as nat)),
{
    assert(((((a << s) | (b >> ((64 - s) as u64))) >> j) & 1 == 1) == (if j >= s {
        (a >> ((j - s) as u64)) & 1 == 1
    } else {
        (b >> ((64 - s + j) as u64)) & 1 == 1
    })) by (bit_vector)
        requires
            0 < s < 64,
            j < 64,
    ;
    assert(((((a >> s) | (b << ((64 - s) as u64))) >> j) & 1 == 1) == (if j + s < 64 {
        (a >> ((j + s) as u64)) & 1 == 1
    } else {
        (b >> ((j + s - 64) as u64)) & 1 == 1
    })) by (bit_vector)
        requires
            0 < s < 64,
            j < 64,
    ;
    assert((((a << s) >> j) & 1 == 1) == (j >= s && (a >> ((j - s) as u64)) & 1 == 1))
        by (bit_vector)
        requires
            0 < s < 64,
            j < 64,
    ;
    assert((((a >> s) >> j) & 1 == 1) == (j + s < 64 && (a >> ((j + s) as u64)) & 1 == 1))
        by (bit_vector)
        requires
            0 < s < 64,
            j < 64,
    ;
}

/// Words with equal bits are equal.
proof fn lemma_word_bits_determine(a: u64, b: u64, k: u64)
    requires
        k < 64,
        forall|j: nat| j < 64 ==> #[trigger] word_bit(a, j) == word_bit(b, j),
    ensures
        a >> k == b >> k,
    decreases 64 - k,
{
    assert(word_bit(a, k as nat) == word_bit(b, k as nat));
    if k == 63 {
        assert(a >> 63u64 == (a >> 63u64) & 1) by (bit_vector);
        assert(b >> 63u64 == (b >> 63u64) & 1) by (bit_vector);
        assert((a >> 63u64) & 1 == 0 || (a >> 63u64) & 1 == 1) by (bit_vector);
        assert((b >> 63u64) & 1 == 0 || (b >> 63u64) & 1 == 1) by (bit_vector);
    } else {
        let n = (k + 1) as u64;
        lemma_word_bits_determine(a, b, n);
        assert(a >> k == ((a >> n) << 1u64) | ((a >> k) & 1)) by (bit_vector)
            requires
                k < 63,
                n == k + 1,
        ;
        assert(b >> k == ((b >> n) << 1u64) | ((b >> k) & 1)) by (bit_vector)
            requires
                k < 63,
                n == k + 1,
        ;
        assert((a >> k) & 1 == 0 || (a >> k) & 1 == 1) by (bit_vector);
        assert((b >> k) & 1 == 0 || (b >> k) & 1 == 1) by (bit_vector);
    }
}

impl<const WORDS: usize> WideState<WORDS> {
    pub closed spec fn view(&self) -> Seq<u64> {
        self.words@
    }

    /// There are as many words as the type says.
    pub broadcast proof fn lemma_word_count(self)
        ensures
            #[trigger] self@.len() == WORDS,
    {
    }

    /// Bit `i` of the integer.
    pub open spec fn bit_at(self, i: nat) -> bool {
        word_bit(self@[i as int / 64], i % 64)
    }

    /// The number of ones among the bits from `from` to below `to`.
    pub open spec fn ones_between(self, from: nat, to: nat) -> nat
        decreases to,
    {
        if to <= from {
            0
        } else {
            self.ones_between(from, (to - 1) as nat) + (if self.bit_at((to - 1) as nat) {
                1nat
            } else {
                0
            })
        }
    }

    /// The integer is determined by its bits.
    pub proof fn bits_determine(self, other: Self)
        requires
            forall|i: nat| i < 64 * WORDS ==> #[trigger] self.bit_at(i) == other.bit_at(i),
        ensures
            self == other,
    {
        assert forall|w: int| 0 <= w < WORDS implies self.words[w] == other.words[w] by {
            let a = self.words[w];
            let b = other.words[w];
            assert forall|j: nat| j < 64 implies #[trigger] word_bit(a, j) == word_bit(b, j) by {
                let i = (64 * w + j) as nat;
                lemma_fundamental_div_mod_converse(i as int, 64, w, j as int);
                assert(self.bit_at(i) == other.bit_at(i));
            }
            lemma_word_bits_determine(a, b, 0);
            assert(a >> 0u64 == a) by (bit_vector);
            assert(b >> 0u64 == b) by (bit_vector);
        }
        assert(self.words =~= other.words);
    }

    /// The integer zero.
    pub fn zero() -> (state: Self)
        ensures
            forall|i: nat| i < 64 * WORDS ==> !#[trigger] state.bit_at(i),
            forall|w: int| 0 <= w < WORDS ==> #[trigger] state@[w] == 0,
    {
        let state = WideState { words: [0u64;WORDS] };
        proof {
            assert forall|i: nat| i < 64 * WORDS implies !#[trigger] state.bit_at(i) by {
                lemma_word_test(0, (i % 64) as u64);
            }
        }
        state
    }

    /// The number of bits.
    pub fn capacity_bits() -> (bits: usize)
        requires
            WORDS * 64 <= usize::MAX,
        ensures
            bits == WORDS * 64,
    {
        WORDS * 64
    }

    pub fn from_words(words: [u64; WORDS]) -> (state: Self)
        ensures
            state@ == words@,
    {
        WideState { words }
    }

    pub fn words(&self) -> (words: &[u64; WORDS])
        ensures
            words@ == self@,
    {
        &self.words
    }

    /// Whether a bit is set.
    pub fn bit(&self, index: usize) -> (result: Result<bool>)
        requires
            WORDS * 64 <= usize::MAX,
        ensures
            match result {
                Ok(set) => index < 64 * WORDS && set == self.bit_at(index as nat),
                Err(error) => index >= 64 * WORDS && error == (QmbedError::InvalidSite {
                    site: index,
                    sites: (64 * WORDS) as usize,
                }),
            },
    {
        if index >= Self::capacity_bits() {
            return Err(QmbedError::InvalidSite { site: index, sites: Self::capacity_bits() });
        }
        let offset: u64 = (index % 64) as u64;
        proof {
            lemma_word_test(self.words[index as int / 64], offset);
        }
        Ok(self.words[index / 64] & (1u64 << offset) != 0)
    }

    /// The integer with one bit set or cleared.
    pub fn with_bit(self, index: usize, occupied: bool) -> (result: Result<Self>)
        requires
            WORDS * 64 <= usize::MAX,
        ensures
            match result {
                Ok(state) => index < 64 * WORDS && forall|i: nat|
                    i < 64 * WORDS ==> #[trigger] state.bit_at(i) == (if i == index {
                        occupied
                    } else {
                        self.bit_at(i)
                    }),
                Err(error) => index >= 64 * WORDS && error == (QmbedError::InvalidSite {
                    site: index,
                    sites: (64 * WORDS) as usize,
                }),
            },
    {
        if index >= Self::capacity_bits() {
            return Err(QmbedError::InvalidSite { site: index, sites: Self::capacity_bits() });
        }
        let offset: u64 = (index % 64) as u64;
        let word: u64 = self.words[index / 64];
        let mut words: [u64; WORDS] = self.words;
        if occupied {
            words[index / 64] = word | (1u64 << offset);
        } else {
            words[index / 64] = word & !(1u64 << offset);
        }
        let state = WideState { words };
        proof {
            assert forall|i: nat| i < 64 * WORDS implies #[trigger] state.bit_at(i) == (if i == index {
                occupied
            } else {
                self.bit_at(i)
            }) by {
                lemma_word_update(word, offset, (i % 64) as u64);
                if i as int / 64 == index as int / 64 {
                    lemma_fundamental_div_mod(i as int, 64);
                    lemma_fundamental_div_mod(index as int, 64);
                }
            }
        }
        Ok(state)
    }

    /// The number of ones.
    pub fn count_ones(&self) -> (count: usize)
        requires
            WORDS * 64 <= usize::MAX,
        ensures
            count == self.ones_between(0, 64 * WORDS as nat),
    {
        let mut count: usize = 0;
        let mut index: usize = 0;
        while index < Self::capacity_bits()
            invariant
                WORDS * 64 <= usize::MAX,
                index <= 64 * WORDS,
                count <= index,
                count == self.ones_between(0, index as nat),
            decreases 64 * WORDS - index,
        {
            let offset: u64 = (index % 64) as u64;
            proof {
                lemma_word_test(self.words[index as int / 64], offset);
            }
            if self.words[index / 64] & (1u64 << offset) != 0 {
                count = count + 1;
            }
            index = index + 1;
        }
        count
    }

    pub fn bitwise_and(self, right: Self) -> (state: Self)
        ensures
            forall|i: nat|
                i < 64 * WORDS ==> #[trigger] state.bit_at(i) == (self.bit_at(i) && right.bit_at(
                    i,
                )),
    {
        let mut words: [u64; WORDS] = self.words;
        let mut index: usize = 0;
        while index < WORDS
            invariant
                index <= WORDS,
                forall|w: int| 0 <= w < index ==> #[trigger] words[w] == self.words[w] & right.words[w],
            decreases WORDS - index,
        {
            words[index] = self.words[index] & right.words[index];
            index = index + 1;
        }
        let state = WideState { words };
        proof {
            assert forall|i: nat| i < 64 * WORDS implies #[trigger] state.bit_at(i) == (self.bit_at(
                i,
            ) && right.bit_at(i)) by {
                let w = i as int / 64;
                lemma_word_logic(self.words[w], right.words[w], (i % 64) as u64);
                assert(words[w] == self.words[w] & right.words[w]);
            }
        }
        state
    }

    pub fn bitwise_or(self, right: Self) -> (state: Self)
        ensures
            forall|i: nat|
                i < 64 * WORDS ==> #[trigger] state.bit_at(i) == (self.bit_at(i) || right.bit_at(
                    i,
                )),
    {
        let mut words: [u64; WORDS] = self.words;
        let mut index: usize = 0;
        while index < WORDS
            invariant
                index <= WORDS,
                forall|w: int| 0 <= w < index ==> #[trigger] words[w] == self.words[w] | right.words[w],
            decreases WORDS - index,
        {
            words[index] = self.words[index] | right.words[index];
            index = index + 1;
        }
        let state = WideState { words };
        proof {
            assert forall|i: nat| i < 64 * WORDS implies #[trigger] state.bit_at(i) == (self.bit_at(
                i,
            ) || right.bit_at(i)) by {
                let w = i as int / 64;
                lemma_word_logic(self.words[w], right.words[w], (i % 64) as u64);
                assert(words[w] == self.words[w] | right.words[w]);
            }
        }
        state
    }

    pub fn bitwise_xor(self, right: Self) -> (state: Self)
        ensures
            forall|i: nat|
                i < 64 * WORDS ==> #[trigger] state.bit_at(i) == (self.bit_at(i) != right.bit_at(
                    i,
                )),
    {
        let mut words: [u64; WORDS] = self.words;
        let mut index: usize = 0;
        while index < WORDS
            invariant
                index <= WORDS,
                forall|w: int| 0 <= w < index ==> #[trigger] words[w] == self.words[w] ^ right.words[w],
            decreases WORDS - index,
        {
            words[index] = self.words[index] ^ right.words[index];
            index = index + 1;
        }
        let state = WideState { words };
        proof {
            assert forall|i: nat| i < 64 * WORDS implies #[trigger] state.bit_at(i) == (self.bit_at(
                i,
            ) != right.bit_at(i)) by {
                let w = i as int / 64;
                lemma_word_logic(self.words[w], right.words[w], (i % 64) as u64);
                assert(words[w] == self.words[w] ^ right.words[w]);
            }
        }
        state
    }

    pub fn bitwise_not(self) -> (state: Self)
        ensures
            forall|i: nat| i < 64 * WORDS ==> #[trigger] state.bit_at(i) == !self.bit_at(i),
    {
        let mut words: [u64; WORDS] = self.words;
        let mut index: usize = 0;
        while index < WORDS
            invariant
                index <= WORDS,
                forall|w: int| 0 <= w < index ==> #[trigger] words[w] == !self.words[w],
            decreases WORDS - index,
        {
            words[index] = !self.words[index];
            index = index + 1;
        }
        let state = WideState { words };
        proof {
            assert forall|i: nat| i < 64 * WORDS implies #[trigger] state.bit_at(i) == !self.bit_at(
                i,
            ) by {
                let w = i as int / 64;
                lemma_word_logic(self.words[w], self.words[w], (i % 64) as u64);
                assert(words[w] == !self.words[w]);
            }
        }
        state
    }

    /// Moves every bit upwards, dropping those beyond the capacity.
    pub fn left_shift(self, shift: usize) -> (state: Self)
        requires
            WORDS * 64 <= usize::MAX,
        ensures
            forall|i: nat|
                i < 64 * WORDS ==> #[trigger] state.bit_at(i) == (i >= shift && self.bit_at(
                    (i - shift) as nat,
                )),
    {
        if shift >= Self::capacity_bits() {
            return Self::zero();
        }
        let word_shift: usize = shift / 64;
        let bit_shift: u64 = (shift % 64) as u64;
        let mut words: [u64; WORDS] = [0u64;WORDS];
        let mut target: usize = word_shift;
        while target < WORDS
            invariant
                word_shift == shift / 64,
                bit_shift == shift % 64,
                word_shift <= target <= WORDS,
                forall|w: int| 0 <= w < word_shift ==> #[trigger] words[w] == 0,
                forall|w: int|
                    word_shift <= w < target ==> #[trigger] words[w] == shifted_up(
                        self.words@,
                        w - word_shift,
                        bit_shift,
                    ),
            decreases WORDS - target,
        {
            let source: usize = target - word_shift;
            let mut word: u64 = self.words[source] << bit_shift;
            if bit_shift > 0 && source > 0 {
                word = word | (self.words[source - 1] >> (64 - bit_shift));
            }
            words[target] = word;
            target = target + 1;
        }
        let state = WideState { words };
        proof {
            assert forall|i: nat| i < 64 * WORDS implies #[trigger] state.bit_at(i) == (i >= shift
                && self.bit_at((i - shift) as nat)) by {
                lemma_up_bit(self.words@, words@, shift as nat, i, WORDS as nat);
            }
        }
        state
    }

    /// Moves every bit downwards, dropping those below zero.
    pub fn right_shift(self, shift: usize) -> (state: Self)
        requires
            WORDS * 64 <= usize::MAX,
        ensures
            forall|i: nat|
                i < 64 * WORDS ==> #[trigger] state.bit_at(i) == (i + shift < 64 * WORDS
                    && self.bit_at(i + shift as nat)),
    {
        if shift >= Self::capacity_bits() {
            return Self::zero();
        }
        let word_shift: usize = shift / 64;
        let bit_shift: u64 = (shift % 64) as u64;
        let mut words: [u64; WORDS] = [0u64;WORDS];
        let mut target: usize = 0;
        while target < WORDS - word_shift
            invariant
                word_shift == shift / 64,
                bit_shift == shift % 64,
                word_shift < WORDS,
                target <= WORDS - word_shift,
                forall|w: int| target <= w < WORDS ==> #[trigger] words[w] == 0,
                forall|w: int|
                    0 <= w < target ==> #[trigger] words[w] == shifted_down(
                        self.words@,
                        w + word_shift,
                        bit_shift,
                    ),
            decreases WORDS - word_shift - target,
        {
            let source: usize = target + word_shift;
            let mut word: u64 = self.words[source] >> bit_shift;
            if bit_shift > 0 && source + 1 < WORDS {
                word = word | (self.words[source + 1] << (64 - bit_shift));
            }
            words[target] = word;
            target = target + 1;
        }
        let state = WideState { words };
        proof {
            assert forall|i: nat| i < 64 * WORDS implies #[trigger] state.bit_at(i) == (i + shift < 64
                * WORDS && self.bit_at(i + shift as nat)) by {
                lemma_down_bit(self.words@, words@, shift as nat, i, WORDS as nat);
            }
        }
        state
    }
}

/// A word of a sequence moved up by less than a word.
spec fn shifted_up(words: Seq<u64>, source: int, s: u64) -> u64 {
    if s > 0 && source > 0 {
        (words[source] << s) | (words[source - 1] >> ((64 - s) as u64))
    } else {
        words[source] << s
    }
}

/// A word of a sequence moved down by less than a word.
spec fn shifted_down(words: Seq<u64>, source: int, s: u64) -> u64 {
    if s > 0 && source + 1 < words.len() {
        (words[source] >> s) | (words[source + 1] << ((64 - s) as u64))
    } else {
        words[source] >> s
    }
}

proof fn lemma_up_bit(from: Seq<u64>, to: Seq<u64>, shift: nat, i: nat, n: nat)
    requires
        from.len() == n,
        to.len() == n,
        shift < 64 * n,
        i < 64 * n,
        forall|w: int| 0 <= w < shift / 64 ==> #[trigger] to[w] == 0,
        forall|w: int|
            shift / 64 <= w < n ==> #[trigger] to[w] == shifted_up(
                from,
                w - shift / 64,
                (shift % 64) as u64,
            ),
    ensures
        word_bit(to[i as int / 64], i % 64) == (i >= shift && word_bit(
            from[(i - shift) / 64],
            ((i - shift) as nat) % 64,
        )),
{
    let w = i as int / 64;
    let j = i % 64;
    let ws = (shift / 64) as int;
    let s = (shift % 64) as u64;
    lemma_fundamental_div_mod(i as int, 64);
    lemma_fundamental_div_mod(shift as int, 64);
    lemma_word_test(0, j as u64);
    if w < ws {
        assert(to[w] == 0);
        assert(i < shift);
    } else {
        let src = w - ws;
        assert(to[w] == shifted_up(from, src, s));
        if s == 0 {
            let a = from[src];
            assert(a << 0u64 == a) by (bit_vector);
            lemma_fundamental_div_mod_converse(i - shift, 64, src, j as int);
        } else {
            let b = if src > 0 {
                from[src - 1]
            } else {
                0
            };
            lemma_word_shift(from[src], b, s, j as u64);
            if j >= s {
                lemma_fundamental_div_mod_converse(i - shift, 64, src, j - s);
            } else if src > 0 {
                lemma_fundamental_div_mod_converse(i - shift, 64, src - 1, 64 - s + j);
            } else {
                assert(i < shift);
            }
        }
    }
}

proof fn lemma_down_bit(from: Seq<u64>, to: Seq<u64>, shift: nat, i: nat, n: nat)
    requires
        from.len() == n,
        to.len() == n,
        shift < 64 * n,
        i < 64 * n,
        forall|w: int| n - shift / 64 <= w < n ==> #[trigger] to[w] == 0,
        forall|w: int|
            0 <= w < n - shift / 64 ==> #[trigger] to[w] == shifted_down(
                from,
                w + shift / 64,
                (shift % 64) as u64,
            ),
    ensures
        word_bit(to[i as int / 64], i % 64) == (i + shift < 64 * n && word_bit(
            from[(i + shift) as int / 64],
            (i + shift) % 64,
        )),
{
    let w = i as int / 64;
    let j = i % 64;
    let ws = (shift / 64) as int;
    let s = (shift % 64) as u64;
    lemma_fundamental_div_mod(i as int, 64);
    lemma_fundamental_div_mod(shift as int, 64);
    lemma_word_test(0, j as u64);
    if w >= n - ws {
        assert(to[w] == 0);
        assert(i + shift >= 64 * n);
    } else {
        let src = w + ws;
        assert(to[w] == shifted_down(from, src, s));
        if s == 0 {
            let a = from[src];
            assert(a >> 0u64 == a) by (bit_vector);
            lemma_fundamental_div_mod_converse((i + shift) as int, 64, src, j as int);
        } else {
            let b = if src + 1 < n {
                from[src + 1]
            } else {
                0
            };
            lemma_word_shift(from[src], b, s, j as u64);
            if j + s < 64 {
                lemma_fundamental_div_mod_converse((i + shift) as int, 64, src, j + s);
            } else if src + 1 < n {
                lemma_fundamental_div_mod_converse((i + shift) as int, 64, src + 1, j + s - 64);
            } else {
                assert(i + shift >= 64 * n);
            }
        }
    }
}

/// The state with one bit inverted.
pub closed spec fn with_bit_inverted<const WORDS: usize>(
    state: WideState<WORDS>,
    index: nat,
) -> WideState<WORDS> {
    let word = state.words[index as int / 64];
    let offset = (index % 64) as u64;
    WideState {
        words: vstd::array::spec_array_update(
            state.words,
            index as int / 64,
            if state.bit_at(index) {
                word & !(1u64 << offset)
            } else {
                word | (1u64 << offset)
            },
        ),
    }
}

pub proof fn lemma_bit_inverted<const WORDS: usize>(state: WideState<WORDS>, index: nat)
    requires
        index < 64 * WORDS,
    ensures
        forall|i: nat|
            i < 64 * WORDS ==> #[trigger] with_bit_inverted(state, index).bit_at(i) == (if i
                == index {
                !state.bit_at(index)
            } else {
                state.bit_at(i)
            }),
{
    let other = with_bit_inverted(state, index);
    let word = state.words[index as int / 64];
    let offset = (index % 64) as u64;
    assert forall|i: nat| i < 64 * WORDS implies #[trigger] other.bit_at(i) == (if i == index {
        !state.bit_at(index)
    } else {
        state.bit_at(i)
    }) by {
        lemma_word_update(word, offset, (i % 64) as u64);
        if i as int / 64 == index as int / 64 {
            lemma_fundamental_div_mod(i as int, 64);
            lemma_fundamental_div_mod(index as int, 64);
        }
    }
}

/// Complementing every bit twice changes nothing.
pub proof fn complement_involution<const WORDS: usize>(
    state: WideState<WORDS>,
    once: WideState<WORDS>,
    twice: WideState<WORDS>,
)
    requires
        forall|i: nat| i < 64 * WORDS ==> #[trigger] once.bit_at(i) == !state.bit_at(i),
        forall|i: nat| i < 64 * WORDS ==> #[trigger] twice.bit_at(i) == !once.bit_at(i),
    ensures
        twice == state,
{
    assert forall|i: nat| i < 64 * WORDS implies #[trigger] twice.bit_at(i) == state.bit_at(i) by {
        assert(once.bit_at(i) == !state.bit_at(i));
    }
    twice.bits_determine(state);
}

/// Shifting up and back down keeps an integer whose upper bits are clear.
pub proof fn shifts_undo<const WORDS: usize>(
    state: WideState<WORDS>,
    raised: WideState<WORDS>,
    lowered: WideState<WORDS>,
    shift: nat,
)
    requires
        forall|i: nat| i < 64 * WORDS && i + shift >= 64 * WORDS ==> !#[trigger] state.bit_at(i),
        forall|i: nat|
            i < 64 * WORDS ==> #[trigger] raised.bit_at(i) == (i >= shift && state.bit_at(
                (i - shift) as nat,
            )),
        forall|i: nat|
            i < 64 * WORDS ==> #[trigger] lowered.bit_at(i) == (i + shift < 64 * WORDS
                && raised.bit_at(i + shift)),
    ensures
        lowered == state,
{
    assert forall|i: nat| i < 64 * WORDS implies #[trigger] lowered.bit_at(i) == state.bit_at(
        i,
    ) by {
        if i + shift < 64 * WORDS {
            assert(raised.bit_at(i + shift) == state.bit_at(i));
        }
    }
    lowered.bits_determine(state);
}

/// A list of zeros.
pub fn basis_zeros<const WORDS: usize>(length: usize) -> (list: Vec<WideState<WORDS>>)
    ensures
        list.len() == length,
        forall|k: int, i: nat|
            0 <= k < length && i < 64 * WORDS ==> !#[trigger] list[k].bit_at(i),
{
    let zero = WideState::<WORDS>::zero();
    let mut list: Vec<WideState<WORDS>> = Vec::new();
    while list.len() < length
        invariant
            list.len() <= length,
            forall|i: nat| i < 64 * WORDS ==> !#[trigger] zero.bit_at(i),
            forall|k: int| 0 <= k < list.len() ==> #[trigger] list[k] == zero,
        decreases length - list.len(),
    {
        list.push(zero);
    }
    list
}

/// A list of integers with every bit set.
pub fn basis_ones<const WORDS: usize>(length: usize) -> (list: Vec<WideState<WORDS>>)
    ensures
        list.len() == length,
        forall|k: int, i: nat| 0 <= k < length && i < 64 * WORDS ==> #[trigger] list[k].bit_at(i),
{
    let ones = WideState::<WORDS>::zero().bitwise_not();
    let mut list: Vec<WideState<WORDS>> = Vec::new();
    while list.len() < length
        invariant
            list.len() <= length,
            forall|i: nat| i < 64 * WORDS ==> #[trigger] ones.bit_at(i),
            forall|k: int| 0 <= k < list.len() ==> #[trigger] list[k] == ones,
        decreases length - list.len(),
    {
        list.push(ones);
    }
    list
}

pub fn bitwise_and<const WORDS: usize>(left: WideState<WORDS>, right: WideState<WORDS>) -> (state:
    WideState<WORDS>)
    ensures
        forall|i: nat|
            i < 64 * WORDS ==> #[trigger] state.bit_at(i) == (left.bit_at(i) && right.bit_at(i)),
{
    left.bitwise_and(right)
}

pub fn bitwise_or<const WORDS: usize>(left: WideState<WORDS>, right: WideState<WORDS>) -> (state:
    WideState<WORDS>)
    ensures
        forall|i: nat|
            i < 64 * WORDS ==> #[trigger] state.bit_at(i) == (left.bit_at(i) || right.bit_at(i)),
{
    left.bitwise_or(right)
}

pub fn bitwise_xor<const WORDS: usize>(left: WideState<WORDS>, right: WideState<WORDS>) -> (state:
    WideState<WORDS>)
    ensures
        forall|i: nat|
            i < 64 * WORDS ==> #[trigger] state.bit_at(i) == (left.bit_at(i) != right.bit_at(i)),
{
    left.bitwise_xor(right)
}

pub fn bitwise_not<const WORDS: usize>(value: WideState<WORDS>) -> (state: WideState<WORDS>)
    ensures
        forall|i: nat| i < 64 * WORDS ==> #[trigger] state.bit_at(i) == !value.bit_at(i),
{
    value.bitwise_not()
}

pub fn bitwise_leftshift<const WORDS: usize>(value: WideState<WORDS>, shift: usize) -> (state:
    WideState<WORDS>)
    requires
        WORDS * 64 <= usize::MAX,
    ensures
        forall|i: nat|
            i < 64 * WORDS ==> #[trigger] state.bit_at(i) == (i >= shift && value.bit_at(
                (i - shift) as nat,
            )),
{
    value.left_shift(shift)
}

pub fn bitwise_rightshift<const WORDS: usize>(value: WideState<WORDS>, shift: usize) -> (state:
    WideState<WORDS>)
    requires
        WORDS * 64 <= usize::MAX,
    ensures
        forall|i: nat|
            i < 64 * WORDS ==> #[trigger] state.bit_at(i) == (i + shift < 64 * WORDS
                && value.bit_at(i + shift as nat)),
{
    value.right_shift(shift)
}

/// Two to the power sixty-four.
pub open spec fn word_base() -> nat {
    0x1_0000_0000_0000_0000
}

/// The words as digits.
pub open spec fn word_digits(words: Seq<u64>) -> Seq<nat> {
    Seq::new(words.len(), |i: int| words[i] as nat)
}

/// The number that a sequence of words stands for, least significant word first.
pub open spec fn words_value(words: Seq<u64>) -> nat {
    radix::value(word_digits(words), word_base())
}

impl<const WORDS: usize> WideState<WORDS> {
    /// The number that the integer stands for.
    pub open spec fn number(self) -> nat {
        words_value(self@)
    }
}

/// A word sequence of which only the lowest two words can be nonzero.
proof fn lemma_low_words(words: Seq<u64>)
    requires
        forall|w: int| 2 <= w < words.len() ==> #[trigger] words[w] == 0,
    ensures
        words.len() == 0 ==> words_value(words) == 0,
        words.len() == 1 ==> words_value(words) == words[0],
        words.len() >= 2 ==> words_value(words) == words[0] + word_base() * words[1],
{
    let ds = word_digits(words);
    if words.len() >= 1 {
        let t1 = ds.drop_first();
        assert(ds[0] == words[0]);
        if words.len() >= 2 {
            let t2 = t1.drop_first();
            assert(t1[0] == words[1]);
            assert forall|i: int| 0 <= i < t2.len() implies #[trigger] t2[i] == 0 by {
                assert(t2[i] == ds[i + 2]);
            }
            lemma_zero_value(t2);
            assert(radix::value(t1, word_base()) == words[1]);
        } else {
            assert(radix::value(t1, word_base()) == 0);
        }
    }
}

pub proof fn lemma_zero_value(ds: Seq<nat>)
    requires
        forall|i: int| 0 <= i < ds.len() ==> #[trigger] ds[i] == 0,
    ensures
        radix::value(ds, word_base()) == 0,
    decreases ds.len(),
{
    if ds.len() > 0 {
        let t = ds.drop_first();
        assert forall|i: int| 0 <= i < t.len() implies #[trigger] t[i] == 0 by {
            assert(t[i] == ds[i + 1]);
        }
        lemma_zero_value(t);
    }
}

/// A machine integer as a wide one; bits beyond the capacity are dropped.
pub fn python_int_to_basis_int<const WORDS: usize>(value: u128) -> (state: WideState<WORDS>)
    ensures
        WORDS >= 2 ==> state.number() == value,
        WORDS == 1 ==> state.number() == value as nat % word_base(),
        WORDS == 0 ==> state.number() == 0,
        forall|w: int| 2 <= w < WORDS ==> #[trigger] state@[w] == 0,
{
    let mut words: [u64; WORDS] = [0u64;WORDS];
    let low: u128 = value % 0x1_0000_0000_0000_0000u128;
    let high: u128 = value / 0x1_0000_0000_0000_0000u128;
    if WORDS > 0 {
        words[0] = low as u64;
    }
    if WORDS > 1 {
        words[1] = high as u64;
    }
    proof {
        lemma_low_words(words@);
        lemma_fundamental_div_mod(value as int, word_base() as int);
    }
    WideState { words }
}

/// A wide integer as a machine integer, if it fits.
pub fn basis_int_to_python_int<const WORDS: usize>(value: WideState<WORDS>) -> (result: Result<
    u128,
>)
    ensures
        match result {
            Ok(number) => number == value.number() && forall|w: int|
                2 <= w < WORDS ==> #[trigger] value@[w] == 0,
            Err(error) => error is UnsupportedBackend && exists|w: int|
                2 <= w < WORDS && #[trigger] value@[w] != 0,
        },
{
    let mut index: usize = 2;
    while index < WORDS
        invariant
            2 <= index,
            forall|w: int| 2 <= w < index && w < WORDS ==> #[trigger] value.words[w] == 0,
        decreases WORDS - index,
    {
        if value.words[index] != 0 {
            assert(value@[index as int] != 0);
            return Err(
                QmbedError::UnsupportedBackend(
                    "wide basis integer does not fit into a Python-compatible u128".to_string(),
                ),
            );
        }
        index = index + 1;
    }
    proof {
        lemma_low_words(value.words@);
    }
    let mut number: u128 = 0;
    if WORDS > 0 {
        number = value.words[0] as u128;
    }
    if WORDS > 1 {
        number = number + 0x1_0000_0000_0000_0000u128 * (value.words[1] as u128);
    }
    Ok(number)
}

/// The number of bits that hold every number up to `v`.
pub open spec fn bit_length(v: nat) -> nat
    decreases v,
{
    if v == 0 {
        0
    } else {
        1 + bit_length(v / 2)
    }
}

pub proof fn lemma_bit_length(v: nat)
    ensures
        v < radix::place(2, bit_length(v)),
    decreases v,
{
    if v > 0 {
        lemma_bit_length(v / 2);
        lemma_fundamental_div_mod(v as int, 2);
    }
}

/// The bits that a lattice needs when every site is packed on its own.
pub open spec fn packed_bits(sites: usize, states_per_site: usize) -> nat {
    sites as nat * bit_length((states_per_site - 1) as nat)
}

/// The bits that the storage holds.
pub open spec fn storage_bits(storage: StateStorage) -> nat {
    match storage {
        StateStorage::U128 => 128,
        StateStorage::U256 => 256,
        StateStorage::U1024 => 1024,
        StateStorage::U4096 => 4096,
        StateStorage::U16384 => 16384,
    }
}

/// The storage of the next smaller kind.
pub open spec fn smaller_bits(storage: StateStorage) -> int {
    match storage {
        StateStorage::U128 => -1,
        StateStorage::U256 => 128,
        StateStorage::U1024 => 256,
        StateStorage::U4096 => 1024,
        StateStorage::U16384 => 4096,
    }
}

/// The smallest storage for a lattice.
pub fn get_basis_type(sites: usize, particles: Option<usize>, states_per_site: usize) -> (result:
    Result<StateStorage>)
    ensures
        match result {
            Ok(storage) => states_per_site >= 2 && smaller_bits(storage) < packed_bits(
                sites,
                states_per_site,
            ) <= storage_bits(storage),
            Err(QmbedError::InvalidSector(_)) => states_per_site < 2,
            Err(QmbedError::UnsupportedBackend(_)) => states_per_site >= 2 && packed_bits(
                sites,
                states_per_site,
            ) > 16384,
            Err(_) => false,
        },
{
    if states_per_site < 2 {
        return Err(QmbedError::InvalidSector("states_per_site must be at least two".to_string()));
    }
    let mut remaining: usize = states_per_site - 1;
    let mut bits_per_site: usize = 0;
    let ghost top = (states_per_site - 1) as nat;
    while remaining > 0
        invariant
            bits_per_site + bit_length(remaining as nat) == bit_length(top),
            bits_per_site + remaining <= top,
            top <= usize::MAX,
        decreases remaining,
    {
        bits_per_site = bits_per_site + 1;
        remaining = remaining / 2;
    }
    let bits: usize = match sites.checked_mul(bits_per_site) {
        Some(bits) => bits,
        None => {
            return Err(QmbedError::UnsupportedBackend("basis bit width overflow".to_string()));
        },
    };
    if bits <= 128 {
        Ok(StateStorage::U128)
    } else if bits <= 256 {
        Ok(StateStorage::U256)
    } else if bits <= 1024 {
        Ok(StateStorage::U1024)
    } else if bits <= 4096 {
        Ok(StateStorage::U4096)
    } else if bits <= 16384 {
        Ok(StateStorage::U16384)
    } else {
        Err(
            QmbedError::UnsupportedBackend(
                "basis requires more than 16384 state bits".to_string(),
            ),
        )
    }
}

/// The packed width holds every state of the lattice.
pub proof fn packed_width_suffices(sites: usize, states_per_site: usize)
    requires
        states_per_site >= 2,
    ensures
        radix::place(states_per_site as nat, sites as nat) <= radix::place(
            2,
            packed_bits(sites, states_per_site),
        ),
    decreases sites,
{
    let b = states_per_site as nat;
    let w = bit_length((b - 1) as nat);
    lemma_bit_length((b - 1) as nat);
    if sites > 0 {
        let m = (sites - 1) as usize;
        packed_width_suffices(m, states_per_site);
        assert(sites as nat * w == m as nat * w + w) by (nonlinear_arith)
            requires
                sites == m + 1,
        ;
        radix::lemma_place_add(2, m as nat * w, w);
        let x = radix::place(b, m as nat) as int;
        let y = radix::place(2, m as nat * w) as int;
        let z = radix::place(2, w) as int;
        assert(b * x <= y * z) by (nonlinear_arith)
            requires
                0 <= x <= y,
                0 <= b <= z,
        ;
    } else {
        lemma_mul_basics(w as int);
    }
}

} // verus!
