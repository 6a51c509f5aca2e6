//! Wide basis integers as arbitrary-precision integers.

use vstd::prelude::*;
use vstd::arithmetic::div_mod::*;
use vstd::arithmetic::mul::*;
use num_bigint::BigUint;
use crate::error::{QmbedError, Result};
use crate::error;
use crate::radix;
use crate::wide::WideState;
use crate::wide;

verus! {

broadcast use vstd::array::group_array_axioms;

/// The arbitrary-precision integer of `num_bigint`, kept opaque.
#[verifier::external_type_specification]
#[verifier::external_body]
pub struct ExBigUint(BigUint);

/// The base-`2^64` digits of an arbitrary-precision integer, least significant first.
pub uninterp spec fn big_digits(value: BigUint) -> Seq<u64>;

/// No leading zero: the highest digit, if there is one, is not zero.
pub open spec fn no_leading_zero(digits: Seq<u64>) -> bool {
    digits.len() > 0 ==> digits.last() != 0
}

/// The number that a sequence of bytes stands for, least significant byte first.
pub open spec fn bytes_value(bytes: Seq<u8>) -> nat {
    radix::value(byte_digits(bytes), 256)
}

pub open spec fn byte_digits(bytes: Seq<u8>) -> Seq<nat> {
    Seq::new(bytes.len(), |i: int| bytes[i] as nat)
}

/// `BigUint::to_u64_digits`: the base-`2^64` digits, least significant first, without
/// leading zeros.
#[verifier::external_body]
fn digits_of(value: &BigUint) -> (digits: Vec<u64>)
    ensures
        digits@ == big_digits(*value),
        no_leading_zero(digits@),
{
    value.to_u64_digits()
}

/// `BigUint::from_bytes_le`: the integer with the given bytes, least significant
/// first, stored without leading zeros.
#[verifier::external_body]
fn from_little_endian(bytes: &[u8]) -> (value: BigUint)
    ensures
        wide::words_value(big_digits(value)) == bytes_value(bytes@),
        no_leading_zero(big_digits(value)),
{
    BigUint::from_bytes_le(bytes)
}

/// The wide state holds the digits, filled up with zeros.
pub open spec fn holds_digits(words: Seq<u64>, digits: Seq<u64>) -> bool {
    &&& digits.len() <= words.len()
    &&& forall|w: int|
        0 <= w < words.len() ==> #[trigger] words[w] == (if w < digits.len() {
            digits[w]
        } else {
            0
        })
}

/// An arbitrary-precision integer as a wide state, if it fits.
pub fn state_from_biguint<const WORDS: usize>(value: &BigUint) -> (result: Result<
    WideState<WORDS>,
>)
    ensures
        match result {
            Ok(state) => {
                &&& holds_digits(state@, big_digits(*value))
                &&& state.number() == wide::words_value(big_digits(*value))
                &&& wide::words_value(big_digits(*value)) < radix::place(
                    wide::word_base(),
                    WORDS as nat,
                )
            },
            Err(error) => error is UnsupportedBackend && wide::words_value(big_digits(*value))
                >= radix::place(wide::word_base(), WORDS as nat),
        },
{
    let digits: Vec<u64> = digits_of(value);
    if digits.len() > WORDS {
        proof {
            lemma_leading_digit(digits@);
            radix::lemma_place_monotone(
                wide::word_base(),
                WORDS as nat,
                (digits@.len() - 1) as nat,
            );
        }
        return Err(
            QmbedError::UnsupportedBackend(
                error::weave(
                    vec!["integer needs ", " bits but this state stores ", " bits"],
                    vec![bits_of(&digits), times_word(WORDS)],
                ),
            ),
        );
    }
    let mut words: [u64; WORDS] = [0u64;WORDS];
    let mut index: usize = 0;
    while index < digits.len()
        invariant
            index <= digits.len() <= WORDS,
            forall|w: int|
                0 <= w < WORDS ==> #[trigger] words[w] == (if w < index {
                    digits[w]
                } else {
                    0
                }),
        decreases digits.len() - index,
    {
        words[index] = digits[index];
        index = index + 1;
    }
    let state: WideState<WORDS> = WideState::from_words(words);
    proof {
        let ds = wide::word_digits(digits@);
        let zeros = (WORDS - digits@.len()) as nat;
        assert(wide::word_digits(state@) =~= ds + Seq::new(zeros, |i: int| 0nat));
        lemma_zero_padding(ds, zeros);
        assert(radix::valid_digits(ds, wide::word_base())) by {
            assert forall|i: int| 0 <= i < ds.len() implies #[trigger] ds[i]
                < wide::word_base() by {}
        }
        radix::lemma_value_bound(ds, wide::word_base());
        radix::lemma_place_monotone(wide::word_base(), ds.len(), WORDS as nat);
    }
    Ok(state)
}

/// The bits of a number of words, as far as they can be counted.
fn times_word(words: usize) -> (bits: usize)
    ensures
        bits == (if words * 64 <= usize::MAX {
            words * 64
        } else {
            usize::MAX as int
        }),
{
    match words.checked_mul(64) {
        Some(bits) => bits,
        None => usize::MAX,
    }
}

/// The bits of a number given by its words, as far as they can be counted.
fn bits_of(digits: &Vec<u64>) -> (bits: usize)
    requires
        digits@.len() > 0,
    ensures
        digits@.len() * 64 <= usize::MAX ==> bits == digits@.len() * 64
            - vstd::std_specs::bits::u64_leading_zeros(digits@.last()),
{
    broadcast use vstd::std_specs::bits::axiom_u64_leading_zeros;

    let spare: usize = digits[digits.len() - 1].leading_zeros() as usize;
    let all: usize = times_word(digits.len());
    if all >= spare {
        all - spare
    } else {
        0
    }
}

/// A wide state as an arbitrary-precision integer.
pub fn state_to_biguint<const WORDS: usize>(value: WideState<WORDS>) -> (result: BigUint)
    ensures
        wide::words_value(big_digits(result)) == value.number(),
        no_leading_zero(big_digits(result)),
{
    let words: &[u64; WORDS] = value.words();
    let mut bytes: Vec<u8> = Vec::new();
    let mut index: usize = 0;
    assert(byte_digits(bytes@) =~= Seq::<nat>::empty());
    assert(words@.subrange(0, 0) =~= Seq::<u64>::empty());
    while index < WORDS
        invariant
            index <= WORDS,
            byte_digits(bytes@) == spelled_bytes(words@.subrange(0, index as int)),
        decreases WORDS - index,
    {
        let word: u64 = words[index];
        let ghost start = byte_digits(bytes@);
        let mut rest: u64 = word;
        let mut count: usize = 0;
        proof {
            lemma_div_basics(word as int);
            assert(radix::digits(word as nat, 256, 0) =~= Seq::<nat>::empty());
        }
        while count < 8
            invariant
                count <= 8,
                rest == word as nat / radix::place(256, count as nat),
                byte_digits(bytes@) == start + radix::digits(word as nat, 256, count as nat),
            decreases 8 - count,
        {
            proof {
                radix::lemma_quotient_step(word as nat, 256, count as nat);
            }
            let ghost before = bytes@;
            let byte: u8 = (rest % 256) as u8;
            bytes.push(byte);
            proof {
                assert(radix::digits(word as nat, 256, (count + 1) as nat) =~= radix::digits(
                    word as nat,
                    256,
                    count as nat,
                ).push(byte as nat));
                assert(byte_digits(bytes@) =~= byte_digits(before).push(byte as nat));
                assert(byte_digits(bytes@) =~= start + radix::digits(
                    word as nat,
                    256,
                    (count + 1) as nat,
                ));
            }
            rest = rest / 256;
            count = count + 1;
        }
        proof {
            let longer = words@.subrange(0, index + 1);
            assert(longer.drop_last() =~= words@.subrange(0, index as int));
            assert(longer.last() == word);
        }
        index = index + 1;
    }
    proof {
        assert(words@.subrange(0, index as int) =~= words@);
        lemma_spelled_value(words@);
    }
    from_little_endian(bytes.as_slice())
}

/// The bytes of a sequence of words, eight to a word.
spec fn spelled_bytes(words: Seq<u64>) -> Seq<nat>
    decreases words.len(),
{
    if words.len() == 0 {
        Seq::empty()
    } else {
        spelled_bytes(words.drop_last()) + radix::digits(words.last() as nat, 256, 8)
    }
}

pub proof fn lemma_eight_bytes()
    ensures
        radix::place(256, 8) == wide::word_base(),
{
    reveal_with_fuel(radix::place, 9);
}

proof fn lemma_byte_place(n: nat)
    ensures
        radix::place(256, 8 * n) == radix::place(wide::word_base(), n),
    decreases n,
{
    if n > 0 {
        lemma_byte_place((n - 1) as nat);
        lemma_eight_bytes();
        radix::lemma_place_add(256, 8, (8 * (n - 1)) as nat);
    }
}

proof fn lemma_spelled_value(words: Seq<u64>)
    ensures
        spelled_bytes(words).len() == 8 * words.len(),
        radix::value(spelled_bytes(words), 256) == wide::words_value(words),
    decreases words.len(),
{
    let ds = wide::word_digits(words);
    if words.len() > 0 {
        let front = words.drop_last();
        let last = words.last() as nat;
        lemma_spelled_value(front);
        lemma_eight_bytes();
        radix::lemma_value_of_digits(last, 256, 8);
        radix::lemma_value_concat(spelled_bytes(front), radix::digits(last, 256, 8), 256);
        lemma_byte_place(front.len());
        assert(ds =~= wide::word_digits(front) + seq![last]);
        radix::lemma_value_concat(wide::word_digits(front), seq![last], wide::word_base());
        lemma_single_value(last);
    }
}

proof fn lemma_single_value(d: nat)
    ensures
        radix::value(seq![d], wide::word_base()) == d,
{
    assert(seq![d].drop_first() =~= Seq::<nat>::empty());
    assert(radix::value(seq![d].drop_first(), wide::word_base()) == 0);
}

proof fn lemma_leading_digit(digits: Seq<u64>)
    requires
        digits.len() > 0,
        digits.last() != 0,
    ensures
        wide::words_value(digits) >= radix::place(wide::word_base(), (digits.len() - 1) as nat),
{
    let front = digits.drop_last();
    let last = digits.last() as nat;
    let ds = wide::word_digits(digits);
    assert(ds =~= wide::word_digits(front) + seq![last]);
    radix::lemma_value_concat(wide::word_digits(front), seq![last], wide::word_base());
    lemma_single_value(last);
    let p = radix::place(wide::word_base(), front.len()) as int;
    assert(p <= p * last) by (nonlinear_arith)
        requires
            0 <= p,
            1 <= last,
    ;
}

proof fn lemma_zero_padding(ds: Seq<nat>, zeros: nat)
    ensures
        radix::value(ds + Seq::new(zeros, |i: int| 0nat), wide::word_base()) == radix::value(
            ds,
            wide::word_base(),
        ),
{
    let tail = Seq::new(zeros, |i: int| 0nat);
    wide::lemma_zero_value(tail);
    radix::lemma_value_concat(ds, tail, wide::word_base());
    lemma_mul_basics(radix::place(wide::word_base(), ds.len()) as int);
}

/// Reading back the arbitrary-precision form of a wide state gives the state.
pub proof fn biguint_round_trip<const WORDS: usize>(state: WideState<WORDS>, value: BigUint)
    requires
        wide::words_value(big_digits(value)) == state.number(),
        no_leading_zero(big_digits(value)),
    ensures
        holds_digits(state@, big_digits(value)),
{
    let digits = big_digits(value);
    let b = wide::word_base();
    let ds = wide::word_digits(state@);
    state.lemma_word_count();
    assert(radix::valid_digits(ds, b));
    radix::lemma_value_bound(ds, b);
    if digits.len() > WORDS {
        lemma_leading_digit(digits);
        radix::lemma_place_monotone(b, WORDS as nat, (digits.len() - 1) as nat);
    }
    let zeros = (WORDS - digits.len()) as nat;
    let padded = wide::word_digits(digits) + Seq::new(zeros, |i: int| 0nat);
    lemma_zero_padding(wide::word_digits(digits), zeros);
    assert(radix::valid_digits(padded, b));
    radix::lemma_digits_of_value(ds, b);
    radix::lemma_digits_of_value(padded, b);
    assert(ds =~= padded);
    assert forall|w: int| 0 <= w < WORDS implies #[trigger] state@[w] == (if w < digits.len() {
        digits[w]
    } else {
        0
    }) by {
        assert(ds[w] == padded[w]);
    }
}

/// Sequences of words without leading zeros that stand for the same number are equal.
proof fn lemma_words_unique(left: Seq<u64>, right: Seq<u64>)
    requires
        no_leading_zero(left),
        no_leading_zero(right),
        wide::words_value(left) == wide::words_value(right),
        left.len() <= right.len(),
    ensures
        left == right,
{
    let b = wide::word_base();
    let ds = wide::word_digits(left);
    let es = wide::word_digits(right);
    assert(radix::valid_digits(ds, b));
    assert(radix::valid_digits(es, b));
    radix::lemma_value_bound(ds, b);
    if left.len() < right.len() {
        lemma_leading_digit(right);
        radix::lemma_place_monotone(b, left.len(), (right.len() - 1) as nat);
    }
    radix::lemma_digits_of_value(ds, b);
    radix::lemma_digits_of_value(es, b);
    assert(ds =~= es);
    assert forall|i: int| 0 <= i < left.len() implies left[i] == right[i] by {
        assert(ds[i] == es[i]);
    }
    assert(left =~= right);
}

/// An integer that fits a wide state comes back from the state unchanged.
pub proof fn wide_round_trip<const WORDS: usize>(
    value: BigUint,
    state: WideState<WORDS>,
    back: BigUint,
)
    requires
        no_leading_zero(big_digits(value)),
        state.number() == wide::words_value(big_digits(value)),
        wide::words_value(big_digits(back)) == state.number(),
        no_leading_zero(big_digits(back)),
    ensures
        big_digits(back) == big_digits(value),
{
    let first = big_digits(value);
    let second = big_digits(back);
    if first.len() <= second.len() {
        lemma_words_unique(first, second);
    } else {
        lemma_words_unique(second, first);
    }
}

} // verus!
