//! What the outcomes of local operators are as numbers: Gaussian integers times square
//! roots.

use vstd::prelude::*;
use crate::local::{LocalAlgebra, LocalFactor};

verus! {

/// A complex number with whole parts.
pub ghost struct Gauss {
    pub re: int,
    pub im: int,
}

impl Gauss {
    pub open spec fn plus(self, other: Gauss) -> Gauss {
        Gauss { re: self.re + other.re, im: self.im + other.im }
    }

    pub open spec fn less(self, other: Gauss) -> Gauss {
        Gauss { re: self.re - other.re, im: self.im - other.im }
    }

    pub open spec fn times(self, other: Gauss) -> Gauss {
        Gauss {
            re: self.re * other.re - self.im * other.im,
            im: self.re * other.im + self.im * other.re,
        }
    }

    /// A whole multiple.
    pub open spec fn scaled(self, by: int) -> Gauss {
        Gauss { re: by * self.re, im: by * self.im }
    }

    /// The imaginary unit times the number.
    pub open spec fn turned(self) -> Gauss {
        Gauss { re: -self.im, im: self.re }
    }

    pub open spec fn conjugate(self) -> Gauss {
        Gauss { re: self.re, im: -self.im }
    }
}

pub open spec fn whole(number: int) -> Gauss {
    Gauss { re: number, im: 0 }
}

/// A whole number times a power of the imaginary unit.
pub open spec fn rotated(size: int, turns: u8) -> Gauss {
    if turns % 4 == 0 {
        Gauss { re: size, im: 0 }
    } else if turns % 4 == 1 {
        Gauss { re: 0, im: size }
    } else if turns % 4 == 2 {
        Gauss { re: -size, im: 0 }
    } else {
        Gauss { re: 0, im: -size }
    }
}

/// Twice what stands before the square root in a factor; no factor is one.
pub open spec fn doubled(factor: Option<LocalFactor>) -> Gauss {
    match factor {
        None => whole(2),
        Some(one) => rotated(
            if one.halved {
                one.numerator as int
            } else {
                2 * one.numerator
            },
            one.quarter_turns,
        ),
    }
}

/// What stands under the square root in a factor.
pub open spec fn rooted(factor: Option<LocalFactor>) -> u128 {
    match factor {
        None => 1,
        Some(one) => one.radicand,
    }
}

/// The factor is a positive number.
pub open spec fn positive(factor: Option<LocalFactor>) -> bool {
    doubled(factor).re > 0 && doubled(factor).im == 0 && rooted(factor) > 0
}

/// Twice what stands before the square root of a number in the matrix element that leads to
/// a state: the sum over all outcomes that end there.
pub open spec fn element<S>(
    outcomes: Seq<(S, Option<LocalFactor>)>,
    target: S,
    radicand: u128,
) -> Gauss
    decreases outcomes.len(),
{
    if outcomes.len() == 0 {
        whole(0)
    } else {
        let before = element(outcomes.drop_last(), target, radicand);
        let (state, factor) = outcomes.last();
        if state == target && rooted(factor) == radicand {
            before.plus(doubled(factor))
        } else {
            before
        }
    }
}

/// The same for a symbol of an algebra.
pub open spec fn element_of<A: LocalAlgebra>(
    algebra: &A,
    state: A::State,
    symbol: char,
    position: nat,
    site: usize,
    target: A::State,
    radicand: u128,
) -> Gauss {
    match algebra.moves(state, symbol, position, site) {
        Ok(outcomes) => element(outcomes, target, radicand),
        Err(_) => arbitrary(),
    }
}

/// The symbol is known.
pub open spec fn acts<A: LocalAlgebra>(
    algebra: &A,
    state: A::State,
    symbol: char,
    position: nat,
    site: usize,
) -> bool {
    algebra.moves(state, symbol, position, site) is Ok
}

/// Four times the matrix element from a state to itself of one symbol after another, where
/// each leads to one state at most, by way of equal square roots.
pub open spec fn round_trip<A: LocalAlgebra>(
    algebra: &A,
    state: A::State,
    first: char,
    second: char,
    position: nat,
    site: usize,
) -> Option<Gauss> {
    match algebra.moves(state, first, position, site) {
        Err(_) => None,
        Ok(out) => if out.len() == 0 {
            Some(whole(0))
        } else if out.len() > 1 {
            None
        } else {
            match algebra.moves(out[0].0, second, position, site) {
                Err(_) => None,
                Ok(back) => if back.len() != 1 || back[0].0 != state || rooted(back[0].1)
                    != rooted(out[0].1) {
                    None
                } else {
                    Some(
                        doubled(out[0].1).times(doubled(back[0].1)).scaled(
                            rooted(out[0].1) as int,
                        ),
                    )
                },
            }
        },
    }
}

/// The products of whole numbers that occur in round trips.
pub proof fn lemma_squares(number: int)
    ensures
        whole(2).times(whole(2)).scaled(number) == whole(4 * number),
        whole(4).times(whole(4)).scaled(number) == whole(16 * number),
        whole(-2).times(whole(-2)).scaled(number) == whole(4 * number),
        whole(2).times(whole(2 * number)) == whole(4 * number),
{
    assert(number * 4 == 4 * number && number * 16 == 16 * number && number * 0 == 0)
        by (nonlinear_arith);
}

/// The multiples that occur.
pub proof fn lemma_multiples(value: Gauss)
    ensures
        value.scaled(1) == value,
        value.scaled(2) == value.plus(value),
        value.scaled(4) == (Gauss { re: 4 * value.re, im: 4 * value.im }),
        value.scaled(8) == (Gauss { re: 8 * value.re, im: 8 * value.im }),
{
}

pub proof fn lemma_element_one<S>(
    outcomes: Seq<(S, Option<LocalFactor>)>,
    target: S,
    radicand: u128,
)
    requires
        outcomes.len() <= 1,
    ensures
        element(outcomes, target, radicand) == (if outcomes.len() == 1 && outcomes[0].0 == target
            && rooted(outcomes[0].1) == radicand {
            doubled(outcomes[0].1)
        } else {
            whole(0)
        }),
{
    reveal_with_fuel(element, 2);
}

pub proof fn lemma_element_two<S>(
    outcomes: Seq<(S, Option<LocalFactor>)>,
    target: S,
    radicand: u128,
)
    requires
        outcomes.len() == 2,
    ensures
        element(outcomes, target, radicand) == element(seq![outcomes[0]], target, radicand).plus(
            element(seq![outcomes[1]], target, radicand),
        ),
{
    let front = outcomes.drop_last();
    assert(front =~= seq![outcomes[0]]);
    lemma_element_one(front, target, radicand);
    lemma_element_one(seq![outcomes[0]], target, radicand);
    lemma_element_one(seq![outcomes[1]], target, radicand);
}

} // verus!
