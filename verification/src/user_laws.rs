//! Products of operators that a user defines act as products of matrices, for exact numbers.

use vstd::prelude::*;
use crate::exactness;
use crate::general;
use crate::general_laws;
use crate::grids;
use crate::local::Factor;
use crate::product_laws;
use crate::scalar::Amplitude;
use crate::user::UserAction;
use crate::user;
use crate::weights::Weighted;
use crate::weights;

verus! {

proof fn lemma_action_prefix<S, V: Amplitude, A: UserAction<S, V>>(
    actions: &A,
    lattice: usize,
    state: S,
    factors: Seq<Factor>,
    symbols: Seq<char>,
    sites: Seq<usize>,
    remaining: nat,
)
    ensures
        user::user_action(actions, lattice, state, factors, symbols, sites, remaining)
            == product_laws::prefixed(
            user::user_action(actions, lattice, state, Seq::empty(), symbols, sites, remaining),
            factors,
        ),
    decreases remaining, 0nat,
{
    if remaining == 0 {
        assert(factors + Seq::<Factor>::empty() =~= factors);
        let list = seq![(state, Seq::<Factor>::empty())];
        assert(Seq::new(list.len(), |i: int| (list[i].0, factors + list[i].1)) =~= seq![
            (state, factors),
        ]);
    } else {
        let position = (remaining - 1) as nat;
        let site = sites[position as int];
        let symbol = symbols[position as int];
        if site < lattice && actions.knows(symbol) {
            if let Some(list) = actions.outcomes(symbol, state, site) {
                lemma_spread_prefix(actions, lattice, list, factors, symbols, sites, position);
            }
        }
    }
}

proof fn lemma_spread_prefix<S, V: Amplitude, A: UserAction<S, V>>(
    actions: &A,
    lattice: usize,
    list: Seq<Weighted<S, V>>,
    factors: Seq<Factor>,
    symbols: Seq<char>,
    sites: Seq<usize>,
    remaining: nat,
)
    ensures
        user::user_spread(actions, lattice, list, factors, symbols, sites, remaining)
            == product_laws::prefixed(
            user::user_spread(actions, lattice, list, Seq::empty(), symbols, sites, remaining),
            factors,
        ),
    decreases remaining, list.len() + 1,
{
    if list.len() == 0 {
        let none = Seq::<(S, Seq<Factor>)>::empty();
        assert(Seq::new(none.len(), |i: int| (none[i].0, factors + none[i].1)) =~= none);
    } else {
        lemma_spread_prefix(
            actions,
            lattice,
            list.drop_last(),
            factors,
            symbols,
            sites,
            remaining,
        );
        if !list.last().amplitude.tiny() {
            let given = Factor::Given(list.last().amplitude.pattern());
            let own = Seq::<Factor>::empty().push(given);
            let state = list.last().state;
            assert(factors.push(given) =~= factors + own);
            lemma_action_prefix(actions, lattice, state, factors + own, symbols, sites, remaining);
            lemma_action_prefix(actions, lattice, state, own, symbols, sites, remaining);
            let plain = user::user_action(
                actions,
                lattice,
                state,
                Seq::empty(),
                symbols,
                sites,
                remaining,
            );
            product_laws::lemma_prefixed_twice(plain, factors, own);
            product_laws::lemma_prefixed_joined(
                user::user_spread(
                    actions,
                    lattice,
                    list.drop_last(),
                    Seq::empty(),
                    symbols,
                    sites,
                    remaining,
                ),
                product_laws::prefixed(plain, own),
                factors,
            );
        }
    }
}

/// What the other operators of a product make of the outcomes of the one that acts first.
pub open spec fn onward<S, V: Amplitude, A: UserAction<S, V>>(
    actions: &A,
    lattice: usize,
    list: Seq<Weighted<S, V>>,
    symbols: Seq<char>,
    sites: Seq<usize>,
    remaining: nat,
    target: S,
) -> spec_fn(int) -> V {
    |k: int|
        list[k].amplitude.product(
            product_laws::element::<S, V>(
                user::user_action(
                    actions,
                    lattice,
                    list[k].state,
                    Seq::empty(),
                    symbols,
                    sites,
                    remaining,
                )->Ok_0,
                target,
            ),
        )
}

proof fn lemma_spread_elements<S, V: Amplitude, A: UserAction<S, V>>(
    actions: &A,
    lattice: usize,
    list: Seq<Weighted<S, V>>,
    symbols: Seq<char>,
    sites: Seq<usize>,
    remaining: nat,
    target: S,
)
    requires
        grids::faithful::<V>(),
        user::user_spread(
            actions,
            lattice,
            list,
            Seq::empty(),
            symbols,
            sites,
            remaining,
        ) is Ok,
    ensures
        product_laws::element::<S, V>(
            user::user_spread(
                actions,
                lattice,
                list,
                Seq::empty(),
                symbols,
                sites,
                remaining,
            )->Ok_0,
            target,
        ) == exactness::total(
            onward(actions, lattice, list, symbols, sites, remaining, target),
            list.len(),
        ),
    decreases list.len(),
{
    if list.len() > 0 {
        let front = list.drop_last();
        let last = list.last();
        let before = user::user_spread(
            actions,
            lattice,
            front,
            Seq::empty(),
            symbols,
            sites,
            remaining,
        );
        assert(before is Ok);
        lemma_spread_elements(actions, lattice, front, symbols, sites, remaining, target);
        let all = onward(actions, lattice, list, symbols, sites, remaining, target);
        let part = onward(actions, lattice, front, symbols, sites, remaining, target);
        assert forall|k: int| 0 <= k < front.len() implies #[trigger] all(k) == part(k) by {
            assert(front[k] == list[k]);
        }
        exactness::lemma_total_same(all, part, front.len());
        let sum = exactness::total(part, front.len());
        if last.amplitude.tiny() {
            let z = V::zero_value();
            assert(last.amplitude == z);
            assert(all(front.len() as int) == z);
            assert(exactness::commutes(sum, z));
            assert(z.sum(sum) == sum);
        } else {
            let given = Factor::Given(last.amplitude.pattern());
            let own = Seq::<Factor>::empty().push(given);
            lemma_action_prefix(actions, lattice, last.state, own, symbols, sites, remaining);
            let plain = user::user_action(
                actions,
                lattice,
                last.state,
                Seq::empty(),
                symbols,
                sites,
                remaining,
            );
            let more = product_laws::prefixed(plain, own);
            assert(more is Ok);
            product_laws::lemma_elements_add::<S, V>(before->Ok_0, more->Ok_0, target);
            product_laws::lemma_element_prefixed::<S, V>(plain->Ok_0, own, target);
            assert(own.drop_last() =~= Seq::<Factor>::empty());
            reveal_with_fuel(weights::weight, 2);
            last.amplitude.lemma_bits();
            assert(V::one_value().product(last.amplitude) == last.amplitude);
            assert(weights::weight::<V>(own) == last.amplitude);
        }
    }
}

/// The last operator of a product acts first: each matrix element of the product is the sum, over
/// its outcomes, of their amplitude times the matrix element of the other operators from there.
pub proof fn user_products_act_from_the_right<S, V: Amplitude, A: UserAction<S, V>>(
    actions: &A,
    lattice: usize,
    state: S,
    symbols: Seq<char>,
    sites: Seq<usize>,
    count: nat,
    target: S,
)
    requires
        grids::faithful::<V>(),
        count > 0,
        user::user_action(actions, lattice, state, Seq::empty(), symbols, sites, count) is Ok,
    ensures
        sites[count - 1] < lattice,
        actions.outcomes(symbols[count - 1], state, sites[count - 1]) is Some,
        product_laws::element::<S, V>(
            user::user_action(
                actions,
                lattice,
                state,
                Seq::empty(),
                symbols,
                sites,
                count,
            )->Ok_0,
            target,
        ) == exactness::total(
            onward(
                actions,
                lattice,
                actions.outcomes(symbols[count - 1], state, sites[count - 1])->0,
                symbols,
                sites,
                (count - 1) as nat,
                target,
            ),
            (actions.outcomes(symbols[count - 1], state, sites[count - 1])->0).len(),
        ),
{
    let list = actions.outcomes(symbols[count - 1], state, sites[count - 1])->0;
    lemma_spread_elements(actions, lattice, list, symbols, sites, (count - 1) as nat, target);
}

/// The summed amplitude of a state is the matrix element of the outcomes that lead to it.
pub proof fn summed_amplitudes_are_matrix_elements<S, V: Amplitude>(
    list: Seq<(S, Seq<Factor>)>,
    target: S,
)
    requires
        exactness::exact::<V>(),
    ensures
        general::amplitude_of(weights::weighed::<S, V>(list), target)
            == product_laws::element::<S, V>(list, target),
{
    let all = weights::weighed::<S, V>(list);
    general_laws::amplitudes_sum_over_images(all, target);
    let terms = |i: int| general_laws::contribution(all, target, i);
    product_laws::lemma_element_terms::<S, V>(list, target, terms);
}

} // verus!
