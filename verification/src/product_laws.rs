//! Operator products act as products of matrices, the rightmost factor first.

use vstd::prelude::*;
use crate::composition;
use crate::drive_laws;
use crate::exactness;
use crate::grids;
use crate::local::{Factor, LocalAlgebra, LocalFactor, ProductOutcome};
use crate::local;
use crate::reduction_laws;
use crate::scalar::Amplitude;
use crate::weights;

verus! {

/// The matrix element that leads to a state: the sum of the weights of all outcomes that end
/// there.
pub open spec fn element<S, V: Amplitude>(list: Seq<(S, Seq<Factor>)>, target: S) -> V {
    exactness::total(
        |i: int|
            if list[i].0 == target {
                weights::weight::<V>(list[i].1)
            } else {
                V::zero_value()
            },
        list.len(),
    )
}

pub proof fn lemma_element_terms<S, V: Amplitude>(
    list: Seq<(S, Seq<Factor>)>,
    target: S,
    terms: spec_fn(int) -> V,
)
    requires
        forall|i: int|
            0 <= i < list.len() ==> #[trigger] terms(i) == (if list[i].0 == target {
                weights::weight::<V>(list[i].1)
            } else {
                V::zero_value()
            }),
    ensures
        element::<S, V>(list, target) == exactness::total(terms, list.len()),
{
    let own = |i: int|
        if list[i].0 == target {
            weights::weight::<V>(list[i].1)
        } else {
            V::zero_value()
        };
    exactness::lemma_total_same(terms, own, list.len());
}

/// The number that a local factor stands for; no factor is one.
pub open spec fn number<V: Amplitude>(factor: Option<LocalFactor>) -> V {
    match factor {
        None => V::one_value(),
        Some(one) => V::of_local(one),
    }
}

/// Weights multiply.
pub proof fn weights_multiply<V: Amplitude>(first: Seq<Factor>, second: Seq<Factor>)
    requires
        grids::faithful::<V>(),
    ensures
        weights::weight::<V>(first + second) == weights::weight::<V>(first).product(
            weights::weight::<V>(second),
        ),
    decreases second.len(),
{
    let a = weights::weight::<V>(first);
    if second.len() == 0 {
        assert(first + second =~= first);
        assert(exactness::factors_commute(a, V::one_value()));
        assert(V::one_value().product(a) == a);
    } else {
        let rest = second.drop_last();
        weights_multiply::<V>(first, rest);
        assert((first + second).drop_last() =~= first + rest);
        assert((first + second).last() == second.last());
        assert(exactness::factors_regroup(
            a,
            weights::weight::<V>(rest),
            weights::factor_value::<V>(second.last()),
        ));
    }
}

/// Outcomes with more factors in front.
pub open spec fn prefixed<S>(outcome: ProductOutcome<S>, factors: Seq<Factor>) -> ProductOutcome<S> {
    match outcome {
        Err(fault) => Err(fault),
        Ok(list) => Ok(
            Seq::new(list.len(), |i: int| (list[i].0, factors + list[i].1)),
        ),
    }
}

/// Putting factors in front of joined outcomes puts them in front of both.
pub proof fn lemma_prefixed_joined<S>(
    first: ProductOutcome<S>,
    second: ProductOutcome<S>,
    factors: Seq<Factor>,
)
    ensures
        prefixed(local::joined(first, second), factors) == local::joined(
            prefixed(first, factors),
            prefixed(second, factors),
        ),
{
    if first is Ok && second is Ok {
        let a = first->Ok_0;
        let b = second->Ok_0;
        let whole = Seq::new((a + b).len(), |i: int| ((a + b)[i].0, factors + (a + b)[i].1));
        let parts = Seq::new(a.len(), |i: int| (a[i].0, factors + a[i].1)) + Seq::new(
            b.len(),
            |i: int| (b[i].0, factors + b[i].1),
        );
        assert(whole =~= parts);
    }
}

/// Putting factors in front twice puts all of them in front.
pub proof fn lemma_prefixed_twice<S>(
    outcome: ProductOutcome<S>,
    first: Seq<Factor>,
    second: Seq<Factor>,
)
    ensures
        prefixed(prefixed(outcome, second), first) == prefixed(outcome, first + second),
{
    if outcome is Ok {
        let list = outcome->Ok_0;
        let inner = Seq::new(list.len(), |i: int| (list[i].0, second + list[i].1));
        let once = Seq::new(inner.len(), |i: int| (inner[i].0, first + inner[i].1));
        let twice = Seq::new(list.len(), |i: int| (list[i].0, (first + second) + list[i].1));
        assert forall|i: int| 0 <= i < list.len() implies once[i] == twice[i] by {
            assert(first + (second + list[i].1) =~= (first + second) + list[i].1);
        }
        assert(once =~= twice);
    }
}

proof fn lemma_extended(factors: Seq<Factor>, factor: Option<LocalFactor>)
    ensures
        local::extended(factors, factor) == factors + local::extended(Seq::empty(), factor),
{
    assert(local::extended(factors, factor) =~= factors + local::extended(
        Seq::empty(),
        factor,
    ));
}

proof fn lemma_product_prefix<A: LocalAlgebra>(
    algebra: &A,
    state: A::State,
    factors: Seq<Factor>,
    symbols: Seq<char>,
    sites: Seq<usize>,
    remaining: nat,
)
    ensures
        local::product_action(algebra, state, factors, symbols, sites, remaining) == prefixed(
            local::product_action(algebra, state, Seq::empty(), symbols, sites, remaining),
            factors,
        ),
    decreases remaining, 0nat,
{
    if remaining == 0 {
        assert(factors + Seq::<Factor>::empty() =~= factors);
        let list = seq![(state, Seq::<Factor>::empty())];
        assert(Seq::new(list.len(), |i: int| (list[i].0, factors + list[i].1)) =~= seq![
            (state, factors),
        ]);
    } else {
        let position = (remaining - 1) as nat;
        if let Ok(moves) = algebra.moves(
            state,
            symbols[position as int],
            position,
            sites[position as int],
        ) {
            lemma_spread_prefix(algebra, moves, factors, symbols, sites, position);
        }
    }
}

proof fn lemma_spread_prefix<A: LocalAlgebra>(
    algebra: &A,
    moves: Seq<(A::State, Option<LocalFactor>)>,
    factors: Seq<Factor>,
    symbols: Seq<char>,
    sites: Seq<usize>,
    remaining: nat,
)
    ensures
        local::spread_action(algebra, moves, factors, symbols, sites, remaining) == prefixed(
            local::spread_action(algebra, moves, Seq::empty(), symbols, sites, remaining),
            factors,
        ),
    decreases remaining, moves.len() + 1,
{
    if moves.len() == 0 {
        let none = Seq::<(A::State, Seq<Factor>)>::empty();
        assert(Seq::new(none.len(), |i: int| (none[i].0, factors + none[i].1)) =~= none);
    } else {
        let own = local::extended(Seq::empty(), moves[0].1);
        lemma_extended(factors, moves[0].1);
        lemma_product_prefix(algebra, moves[0].0, factors + own, symbols, sites, remaining);
        lemma_product_prefix(algebra, moves[0].0, own, symbols, sites, remaining);
        let plain = local::product_action(
            algebra,
            moves[0].0,
            Seq::empty(),
            symbols,
            sites,
            remaining,
        );
        lemma_prefixed_twice(plain, factors, own);
        lemma_spread_prefix(algebra, moves.drop_first(), factors, symbols, sites, remaining);
        lemma_prefixed_joined(
            prefixed(plain, own),
            local::spread_action(
                algebra,
                moves.drop_first(),
                Seq::empty(),
                symbols,
                sites,
                remaining,
            ),
            factors,
        );
    }
}

proof fn lemma_product_front<A: LocalAlgebra>(
    algebra: &A,
    state: A::State,
    factors: Seq<Factor>,
    symbols: Seq<char>,
    sites: Seq<usize>,
    remaining: nat,
)
    requires
        remaining < symbols.len(),
        symbols.len() == sites.len(),
    ensures
        local::product_action(algebra, state, factors, symbols, sites, remaining)
            == local::product_action(
            algebra,
            state,
            factors,
            symbols.drop_last(),
            sites.drop_last(),
            remaining,
        ),
    decreases remaining, 0nat,
{
    if remaining > 0 {
        let position = (remaining - 1) as nat;
        assert(symbols.drop_last()[position as int] == symbols[position as int]);
        assert(sites.drop_last()[position as int] == sites[position as int]);
        if let Ok(moves) = algebra.moves(
            state,
            symbols[position as int],
            position,
            sites[position as int],
        ) {
            lemma_spread_front(algebra, moves, factors, symbols, sites, position);
        }
    }
}

proof fn lemma_spread_front<A: LocalAlgebra>(
    algebra: &A,
    moves: Seq<(A::State, Option<LocalFactor>)>,
    factors: Seq<Factor>,
    symbols: Seq<char>,
    sites: Seq<usize>,
    remaining: nat,
)
    requires
        remaining < symbols.len(),
        symbols.len() == sites.len(),
    ensures
        local::spread_action(algebra, moves, factors, symbols, sites, remaining)
            == local::spread_action(
            algebra,
            moves,
            factors,
            symbols.drop_last(),
            sites.drop_last(),
            remaining,
        ),
    decreases remaining, moves.len() + 1,
{
    if moves.len() > 0 {
        lemma_product_front(
            algebra,
            moves[0].0,
            local::extended(factors, moves[0].1),
            symbols,
            sites,
            remaining,
        );
        lemma_spread_front(
            algebra,
            moves.drop_first(),
            factors,
            symbols,
            sites,
            remaining,
        );
    }
}

/// The matrix elements of lists that follow each other add up.
pub proof fn lemma_elements_add<S, V: Amplitude>(
    first: Seq<(S, Seq<Factor>)>,
    second: Seq<(S, Seq<Factor>)>,
    target: S,
)
    requires
        exactness::exact::<V>(),
    ensures
        element::<S, V>(first + second, target) == element::<S, V>(first, target).sum(
            element::<S, V>(second, target),
        ),
{
    let both = first + second;
    let terms = |i: int|
        if both[i].0 == target {
            weights::weight::<V>(both[i].1)
        } else {
            V::zero_value()
        };
    let one = |i: int|
        if first[i].0 == target {
            weights::weight::<V>(first[i].1)
        } else {
            V::zero_value()
        };
    let two = |i: int|
        if second[i].0 == target {
            weights::weight::<V>(second[i].1)
        } else {
            V::zero_value()
        };
    reduction_laws::lemma_continued(terms, first.len(), second.len());
    exactness::lemma_total_same(terms, one, first.len());
    let later = |k: int| terms(first.len() + k);
    assert forall|k: int| 0 <= k < second.len() implies #[trigger] later(k) == two(k) by {}
    exactness::lemma_total_same(later, two, second.len());
}

/// Factors in front of outcomes multiply their matrix elements.
pub proof fn lemma_element_prefixed<S, V: Amplitude>(
    list: Seq<(S, Seq<Factor>)>,
    factors: Seq<Factor>,
    target: S,
)
    requires
        grids::faithful::<V>(),
    ensures
        element::<S, V>(
            Seq::new(list.len(), |i: int| (list[i].0, factors + list[i].1)),
            target,
        ) == weights::weight::<V>(factors).product(element::<S, V>(list, target)),
{
    let longer = Seq::new(list.len(), |i: int| (list[i].0, factors + list[i].1));
    let w = weights::weight::<V>(factors);
    let terms = |i: int|
        if list[i].0 == target {
            weights::weight::<V>(list[i].1)
        } else {
            V::zero_value()
        };
    let all = |i: int|
        if longer[i].0 == target {
            weights::weight::<V>(longer[i].1)
        } else {
            V::zero_value()
        };
    composition::lemma_scaled(terms, w, list.len());
    let scaled = |i: int| terms(i).product(w);
    assert forall|i: int| 0 <= i < list.len() implies #[trigger] all(i) == scaled(i) by {
        weights_multiply::<V>(factors, list[i].1);
        assert(exactness::factors_commute(terms(i), w));
        assert(V::zero_value().product(w) == V::zero_value());
    }
    exactness::lemma_total_same(all, scaled, list.len());
    assert(exactness::factors_commute(w, exactness::total(terms, list.len())));
}

proof fn lemma_number<V: Amplitude>(factor: Option<LocalFactor>)
    requires
        grids::faithful::<V>(),
    ensures
        weights::weight::<V>(local::extended(Seq::empty(), factor)) == number::<V>(factor),
{
    if let Some(one) = factor {
        let single = seq![Factor::Local(one)];
        assert(local::extended(Seq::empty(), factor) =~= single);
        assert(single.drop_last() =~= Seq::<Factor>::empty());
        reveal_with_fuel(weights::weight, 2);
        assert(V::one_value().product(V::of_local(one)) == V::of_local(one));
    }
}

/// What the rest of a product makes of the outcomes of the factor that acts first.
pub open spec fn onward<A: LocalAlgebra, V: Amplitude>(
    algebra: &A,
    moves: Seq<(A::State, Option<LocalFactor>)>,
    symbols: Seq<char>,
    sites: Seq<usize>,
    target: A::State,
) -> spec_fn(int) -> V {
    |k: int|
        number::<V>(moves[k].1).product(
            element::<A::State, V>(
                local::operator_action(algebra, moves[k].0, symbols, sites)->Ok_0,
                target,
            ),
        )
}

proof fn lemma_spread_elements<A: LocalAlgebra, V: Amplitude>(
    algebra: &A,
    moves: Seq<(A::State, Option<LocalFactor>)>,
    symbols: Seq<char>,
    sites: Seq<usize>,
    target: A::State,
)
    requires
        grids::faithful::<V>(),
        symbols.len() == sites.len(),
        local::spread_action(
            algebra,
            moves,
            Seq::empty(),
            symbols,
            sites,
            symbols.len(),
        ) is Ok,
    ensures
        element::<A::State, V>(
            local::spread_action(
                algebra,
                moves,
                Seq::empty(),
                symbols,
                sites,
                symbols.len(),
            )->Ok_0,
            target,
        ) == exactness::total(
            onward::<A, V>(algebra, moves, symbols, sites, target),
            moves.len(),
        ),
        forall|k: int|
            0 <= k < moves.len() ==> local::operator_action(
                algebra,
                (#[trigger] moves[k]).0,
                symbols,
                sites,
            ) is Ok,
    decreases moves.len(),
{
    let n = symbols.len();
    let all = onward::<A, V>(algebra, moves, symbols, sites, target);
    if moves.len() > 0 {
        let rest = moves.drop_first();
        let own = local::extended(Seq::empty(), moves[0].1);
        lemma_product_prefix(algebra, moves[0].0, own, symbols, sites, n);
        let plain = local::product_action(algebra, moves[0].0, Seq::empty(), symbols, sites, n);
        let head = prefixed(plain, own);
        let tail = local::spread_action(algebra, rest, Seq::empty(), symbols, sites, n);
        assert(head is Ok && tail is Ok);
        lemma_spread_elements::<A, V>(algebra, rest, symbols, sites, target);
        lemma_elements_add::<A::State, V>(head->Ok_0, tail->Ok_0, target);
        lemma_element_prefixed::<A::State, V>(plain->Ok_0, own, target);
        lemma_number::<V>(moves[0].1);
        let shifted = onward::<A, V>(algebra, rest, symbols, sites, target);
        assert forall|k: int| 0 <= k < rest.len() implies #[trigger] shifted(k) == all(
            k + 1,
        ) by {
            assert(rest[k] == moves[k + 1]);
        }
        drive_laws::lemma_first_apart(all, shifted, rest.len());
        assert forall|k: int| 0 <= k < moves.len() implies local::operator_action(
            algebra,
            (#[trigger] moves[k]).0,
            symbols,
            sites,
        ) is Ok by {
            if k > 0 {
                assert(rest[k - 1] == moves[k]);
            }
        }
    }
}

/// The last factor of a product acts first: each matrix element of the product is the sum, over
/// the outcomes of the last factor, of its number times the matrix element of the other factors
/// from there.
pub proof fn products_act_from_the_right<A: LocalAlgebra, V: Amplitude>(
    algebra: &A,
    state: A::State,
    symbols: Seq<char>,
    sites: Seq<usize>,
    target: A::State,
)
    requires
        grids::faithful::<V>(),
        symbols.len() > 0,
        local::operator_action(algebra, state, symbols, sites) is Ok,
    ensures
        symbols.len() == sites.len(),
        algebra.moves(state, symbols.last(), (symbols.len() - 1) as nat, sites.last()) is Ok,
        ({
            let moves = algebra.moves(
                state,
                symbols.last(),
                (symbols.len() - 1) as nat,
                sites.last(),
            )->Ok_0;
            &&& forall|k: int|
                0 <= k < moves.len() ==> local::operator_action(
                    algebra,
                    (#[trigger] moves[k]).0,
                    symbols.drop_last(),
                    sites.drop_last(),
                ) is Ok
            &&& element::<A::State, V>(
                local::operator_action(algebra, state, symbols, sites)->Ok_0,
                target,
            ) == exactness::total(
                |k: int|
                    number::<V>(moves[k].1).product(
                        element::<A::State, V>(
                            local::operator_action(
                                algebra,
                                moves[k].0,
                                symbols.drop_last(),
                                sites.drop_last(),
                            )->Ok_0,
                            target,
                        ),
                    ),
                moves.len(),
            )
        }),
{
    let position = (symbols.len() - 1) as nat;
    let moves = algebra.moves(state, symbols.last(), position, sites.last())->Ok_0;
    lemma_spread_front(algebra, moves, Seq::empty(), symbols, sites, position);
    lemma_spread_elements::<A, V>(
        algebra,
        moves,
        symbols.drop_last(),
        sites.drop_last(),
        target,
    );
    let first = onward::<A, V>(
        algebra,
        moves,
        symbols.drop_last(),
        sites.drop_last(),
        target,
    );
    let second = |k: int|
        number::<V>(moves[k].1).product(
            element::<A::State, V>(
                local::operator_action(
                    algebra,
                    moves[k].0,
                    symbols.drop_last(),
                    sites.drop_last(),
                )->Ok_0,
                target,
            ),
        );
    assert forall|k: int| 0 <= k < moves.len() implies #[trigger] first(k) == second(k) by {}
    exactness::lemma_total_same(first, second, moves.len());
}

/// The empty product leaves the state with the factor one.
pub proof fn empty_products_keep_states<A: LocalAlgebra, V: Amplitude>(
    algebra: &A,
    state: A::State,
    target: A::State,
)
    requires
        grids::faithful::<V>(),
    ensures
        local::operator_action(algebra, state, Seq::empty(), Seq::empty()) is Ok,
        element::<A::State, V>(
            local::operator_action(algebra, state, Seq::empty(), Seq::empty())->Ok_0,
            target,
        ) == (if target == state {
            V::one_value()
        } else {
            V::zero_value()
        }),
{
    reveal_with_fuel(exactness::total, 2);
    let z = V::zero_value();
    assert(z.sum(V::one_value()) == V::one_value());
    assert(z.sum(z) == z);
}

} // verus!
