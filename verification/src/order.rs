//! A total order on the states of a basis.

use vstd::prelude::*;
use crate::tensor::TensorState;
use crate::wide::WideState;
use crate::wide_spin;

verus! {

/// States that can be compared.
pub trait StateOrder: Copy {
    spec fn before(self, other: Self) -> bool;

    proof fn lemma_order(a: Self, b: Self, c: Self)
        ensures
            !a.before(a),
            a.before(b) && b.before(c) ==> a.before(c),
            a.before(b) || b.before(a) || a == b,
    ;

    fn is_before(self, other: Self) -> (before: bool)
        ensures
            before == self.before(other),
    ;
}

impl StateOrder for u128 {
    open spec fn before(self, other: Self) -> bool {
        self < other
    }

    proof fn lemma_order(a: Self, b: Self, c: Self) {
    }

    fn is_before(self, other: Self) -> (before: bool) {
        self < other
    }
}

impl<const WORDS: usize> StateOrder for WideState<WORDS> {
    open spec fn before(self, other: Self) -> bool {
        wide_spin::precedes(self@, other@)
    }

    proof fn lemma_order(a: Self, b: Self, c: Self) {
        a.lemma_word_count();
        b.lemma_word_count();
        c.lemma_word_count();
        if a.before(a) {
            wide_spin::lemma_precedes_irreflexive(a@, a@);
        }
        if a.before(b) && b.before(c) {
            wide_spin::lemma_precedes_trans(a@, b@, c@);
        }
        wide_spin::lemma_precedes_total(a, b);
    }

    fn is_before(self, other: Self) -> (before: bool) {
        wide_spin::is_word_before(&self, &other)
    }
}

impl<A: StateOrder, B: StateOrder> StateOrder for TensorState<A, B> {
    open spec fn before(self, other: Self) -> bool {
        self.left.before(other.left) || (self.left == other.left && self.right.before(other.right))
    }

    proof fn lemma_order(a: Self, b: Self, c: Self) {
        A::lemma_order(a.left, b.left, c.left);
        A::lemma_order(b.left, a.left, a.left);
        B::lemma_order(a.right, b.right, c.right);
    }

    fn is_before(self, other: Self) -> (before: bool) {
        proof {
            A::lemma_order(self.left, other.left, self.left);
            A::lemma_order(other.left, self.left, other.left);
        }
        if self.left.is_before(other.left) {
            true
        } else if other.left.is_before(self.left) {
            false
        } else {
            self.right.is_before(other.right)
        }
    }
}

/// States in strictly ascending order.
pub open spec fn sorted<S: StateOrder>(list: Seq<S>) -> bool {
    forall|i: int, j: int|
        0 <= i < j < list.len() ==> (#[trigger] list[i]).before(#[trigger] list[j])
}

/// Whether two states are equal.
pub fn same_state<S: StateOrder>(a: S, b: S) -> (same: bool)
    ensures
        same == (a == b),
{
    proof {
        S::lemma_order(a, b, a);
        S::lemma_order(b, a, b);
    }
    !a.is_before(b) && !b.is_before(a)
}

/// No state stands behind a later one.
pub open spec fn ascending<S: StateOrder>(list: Seq<S>) -> bool {
    forall|i: int, j: int|
        0 <= i < j < list.len() ==> !(#[trigger] list[j]).before(#[trigger] list[i])
}

pub proof fn lemma_sorted_ascending<S: StateOrder>(list: Seq<S>)
    requires
        sorted(list),
    ensures
        ascending(list),
{
    assert forall|i: int, j: int| 0 <= i < j < list.len() implies !(#[trigger] list[j]).before(
        #[trigger] list[i],
    ) by {
        assert(list[i].before(list[j]));
        S::lemma_order(list[i], list[j], list[i]);
    }
}

/// The first place of a state in a list that holds it.
pub open spec fn first_place<S>(list: Seq<S>, state: S) -> int {
    list.index_of_first(state)->Some_0
}

pub proof fn lemma_first_place<S>(list: Seq<S>, state: S)
    requires
        list.contains(state),
    ensures
        0 <= first_place(list, state) < list.len(),
        list[first_place(list, state)] == state,
        forall|i: int| 0 <= i < first_place(list, state) ==> #[trigger] list[i] != state,
{
    list.index_of_first_ensures(state);
}

/// The number of states of an ascending list before a state.
pub fn place_of<S: StateOrder>(list: &Vec<S>, state: S) -> (place: usize)
    requires
        ascending(list@),
    ensures
        place <= list@.len(),
        forall|i: int| 0 <= i < place ==> (#[trigger] list@[i]).before(state),
        forall|i: int| place <= i < list@.len() ==> !(#[trigger] list@[i]).before(state),
{
    let mut low: usize = 0;
    let mut high: usize = list.len();
    while low < high
        invariant
            low <= high <= list@.len(),
            ascending(list@),
            forall|i: int| 0 <= i < low ==> (#[trigger] list@[i]).before(state),
            forall|i: int| high <= i < list@.len() ==> !(#[trigger] list@[i]).before(state),
        decreases high - low,
    {
        let middle: usize = low + (high - low) / 2;
        if list[middle].is_before(state) {
            proof {
                assert forall|i: int| 0 <= i < middle + 1 implies (
                #[trigger] list@[i]).before(state) by {
                    if i < middle {
                        assert(!list@[middle as int].before(list@[i]));
                        S::lemma_order(list@[i], list@[middle as int], state);
                    }
                }
            }
            low = middle + 1;
        } else {
            proof {
                assert forall|i: int| middle <= i < list@.len() implies !(
                #[trigger] list@[i]).before(state) by {
                    if i > middle && list@[i].before(state) {
                        assert(!list@[i].before(list@[middle as int]));
                        S::lemma_order(list@[middle as int], list@[i], state);
                    }
                }
            }
            high = middle;
        }
    }
    low
}

/// The number of states of an ascending list that do not stand behind a state.
pub fn place_behind<S: StateOrder>(list: &Vec<S>, state: S) -> (place: usize)
    requires
        ascending(list@),
    ensures
        place <= list@.len(),
        forall|i: int| 0 <= i < place ==> !state.before(#[trigger] list@[i]),
        forall|i: int| place <= i < list@.len() ==> state.before(#[trigger] list@[i]),
{
    let mut low: usize = 0;
    let mut high: usize = list.len();
    while low < high
        invariant
            low <= high <= list@.len(),
            ascending(list@),
            forall|i: int| 0 <= i < low ==> !state.before(#[trigger] list@[i]),
            forall|i: int| high <= i < list@.len() ==> state.before(#[trigger] list@[i]),
        decreases high - low,
    {
        let middle: usize = low + (high - low) / 2;
        if state.is_before(list[middle]) {
            proof {
                assert forall|i: int| middle <= i < list@.len() implies state.before(
                    #[trigger] list@[i],
                ) by {
                    if i > middle {
                        assert(!list@[i].before(list@[middle as int]));
                        S::lemma_order(state, list@[middle as int], list@[i]);
                        S::lemma_order(list@[middle as int], list@[i], state);
                    }
                }
            }
            high = middle;
        } else {
            proof {
                assert forall|i: int| 0 <= i < middle + 1 implies !state.before(
                    #[trigger] list@[i],
                ) by {
                    if i < middle && state.before(list@[i]) {
                        assert(!list@[middle as int].before(list@[i]));
                        S::lemma_order(state, list@[i], list@[middle as int]);
                        S::lemma_order(list@[i], list@[middle as int], state);
                    }
                }
            }
            low = middle + 1;
        }
    }
    low
}

/// The first place of a state in an ascending list.
pub fn find_state<S: StateOrder>(list: &Vec<S>, state: S) -> (found: Option<usize>)
    requires
        ascending(list@),
    ensures
        match found {
            Some(place) => place < list@.len() && list@[place as int] == state && place
                == first_place(list@, state),
            None => !list@.contains(state),
        },
{
    let place: usize = place_of(list, state);
    if place < list.len() && same_state(list[place], state) {
        proof {
            S::lemma_order(state, state, state);
            assert(list@.contains(list@[place as int]));
            lemma_first_place(list@, state);
            let first = first_place(list@, state);
            if first < place {
                assert(list@[first].before(state));
            }
        }
        Some(place)
    } else {
        proof {
            assert forall|i: int| 0 <= i < list@.len() implies #[trigger] list@[i] != state by {
                S::lemma_order(state, state, state);
                if i >= place && list@[i] == state {
                    S::lemma_order(list@[place as int], state, state);
                    if i > place {
                        assert(!list@[i].before(list@[place as int]));
                    }
                }
            }
        }
        None
    }
}

} // verus!
