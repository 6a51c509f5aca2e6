//! Where the states of a lattice stand after its sites are brought into another order.

use vstd::prelude::*;
use vstd::arithmetic::div_mod::*;
use vstd::arithmetic::mul::*;
use crate::subsystem;

verus! {

/// The place of local states among the states of the sites of a list, the first of which counts
/// most.
pub open spec fn listed_place(
    dimensions: Seq<usize>,
    order: Seq<usize>,
    levels: Seq<nat>,
) -> nat
    decreases order.len(),
{
    if order.len() == 0 {
        0
    } else {
        listed_place(dimensions, order.drop_last(), levels) * (
        dimensions[order.last() as int] as nat) + levels[order.last() as int]
    }
}

/// Every site is in a local state of its own.
pub open spec fn proper_levels(dimensions: Seq<usize>, levels: Seq<nat>) -> bool {
    levels.len() == dimensions.len() && forall|i: int|
        0 <= i < levels.len() ==> #[trigger] levels[i] < dimensions[i]
}

/// The sites are sites of the lattice, none twice.
pub open spec fn proper_order(dimensions: Seq<usize>, order: Seq<usize>) -> bool {
    order.no_duplicates() && forall|i: int|
        0 <= i < order.len() ==> #[trigger] order[i] < dimensions.len()
}

proof fn lemma_front(dimensions: Seq<usize>, order: Seq<usize>)
    requires
        proper_order(dimensions, order),
        order.len() > 0,
    ensures
        proper_order(dimensions, order.drop_last()),
        !order.drop_last().contains(order.last()),
        forall|s: usize| #[trigger]
            order.contains(s) <==> order.drop_last().contains(s) || s == order.last(),
{
    let front = order.drop_last();
    assert forall|i: int| 0 <= i < front.len() implies #[trigger] front[i]
        < dimensions.len() by {
        assert(front[i] == order[i]);
    }
    assert forall|i: int, j: int|
        0 <= i < front.len() && 0 <= j < front.len() && i != j implies front[i] != front[j] by {
        assert(front[i] == order[i] && front[j] == order[j]);
    }
    if front.contains(order.last()) {
        let i = choose|i: int| 0 <= i < front.len() && front[i] == order.last();
        assert(order[i] == order[order.len() - 1]);
    }
    assert forall|s: usize| #[trigger] order.contains(s) <==> front.contains(s) || s
        == order.last() by {
        if order.contains(s) {
            let i = choose|i: int| 0 <= i < order.len() && order[i] == s;
            if i < front.len() {
                assert(front[i] == s);
            }
        }
        if front.contains(s) {
            let i = choose|i: int| 0 <= i < front.len() && front[i] == s;
            assert(order[i] == s);
        }
        assert(order[order.len() - 1] == order.last());
    }
}

/// The local states of a place are those that the place belongs to, on all sites of the list.
pub proof fn places_give_their_levels(
    dimensions: Seq<usize>,
    order: Seq<usize>,
    levels: Seq<nat>,
    site: int,
)
    requires
        proper_levels(dimensions, levels),
        proper_order(dimensions, order),
        0 <= site < dimensions.len(),
        dimensions.len() <= usize::MAX,
    ensures
        ({
            let found = subsystem::levels_of(
                dimensions,
                order,
                listed_place(dimensions, order, levels),
            );
            &&& found.len() == dimensions.len()
            &&& found[site] == (if order.contains(site as usize) {
                levels[site]
            } else {
                0
            })
        }),
    decreases order.len(),
{
    if order.len() > 0 {
        let front = order.drop_last();
        let last = order.last() as int;
        let size = dimensions[last] as int;
        lemma_front(dimensions, order);
        assert(order[order.len() - 1] == order.last());
        places_give_their_levels(dimensions, front, levels, site);
        let before = listed_place(dimensions, front, levels) as int;
        let level = levels[last] as int;
        assert(levels[last] < dimensions[last]);
        lemma_fundamental_div_mod_converse(before * size + level, size, before, level);
    }
}

proof fn lemma_found(dimensions: Seq<usize>, order: Seq<usize>, levels: Seq<nat>)
    requires
        proper_levels(dimensions, levels),
        proper_order(dimensions, order),
        forall|s: usize| s < dimensions.len() ==> #[trigger] order.contains(s),
        dimensions.len() <= usize::MAX,
    ensures
        subsystem::levels_of(dimensions, order, listed_place(dimensions, order, levels)) == levels,
{
    let found = subsystem::levels_of(
        dimensions,
        order,
        listed_place(dimensions, order, levels),
    );
    assert forall|i: int| 0 <= i < dimensions.len() implies found[i] == levels[i] by {
        places_give_their_levels(dimensions, order, levels, i);
        assert(order.contains(i as usize));
    }
    if dimensions.len() > 0 {
        places_give_their_levels(dimensions, order, levels, 0);
    } else if order.len() > 0 {
        assert(order[0] < dimensions.len());
    }
    assert(found =~= levels);
}

/// A state with its sites brought into another order has, in the place of local states in the
/// new order, the component in the place of these local states in the old order.
pub proof fn components_move_with_their_sites<V>(
    state: Seq<V>,
    dimensions: Seq<usize>,
    order: Seq<usize>,
    levels: Seq<nat>,
)
    requires
        proper_levels(dimensions, levels),
        proper_order(dimensions, order),
        forall|s: usize| s < dimensions.len() ==> #[trigger] order.contains(s),
        dimensions.len() <= usize::MAX,
        listed_place(dimensions, order, levels) < state.len(),
    ensures
        subsystem::reordered(state, dimensions, order)[listed_place(
            dimensions,
            order,
            levels,
        ) as int] == state[subsystem::place(dimensions, levels, dimensions.len()) as int],
{
    lemma_found(dimensions, order, levels);
}

/// A cell of a density matrix moves with the levels of both of its states.
pub proof fn cells_move_with_their_sites<V>(
    density: Seq<V>,
    dimensions: Seq<usize>,
    order: Seq<usize>,
    size: nat,
    left: Seq<nat>,
    right: Seq<nat>,
)
    requires
        proper_levels(dimensions, left),
        proper_levels(dimensions, right),
        proper_order(dimensions, order),
        forall|s: usize| s < dimensions.len() ==> #[trigger] order.contains(s),
        dimensions.len() <= usize::MAX,
        listed_place(dimensions, order, left) < size,
        listed_place(dimensions, order, right) < size,
    ensures
        ({
            let row = listed_place(dimensions, order, left) as int;
            let column = listed_place(dimensions, order, right) as int;
            let from_row = subsystem::place(dimensions, left, dimensions.len()) as int;
            let from_column = subsystem::place(dimensions, right, dimensions.len()) as int;
            subsystem::reordered_density(density, dimensions, order, size)[row * size + column]
                == density[from_row * size + from_column]
        }),
{
    lemma_found(dimensions, order, left);
    lemma_found(dimensions, order, right);
    let row = listed_place(dimensions, order, left) as int;
    let column = listed_place(dimensions, order, right) as int;
    let at = row * size + column;
    lemma_fundamental_div_mod_converse(at, size as int, row, column);
    assert(0 <= at < size * size) by (nonlinear_arith)
        requires
            at == row * size + column,
            0 <= row < size,
            0 <= column < size,
    ;
}

/// The place in one list behind another is the place in the first times the number of states of
/// the second, and the place in the second.
pub proof fn places_split(
    dimensions: Seq<usize>,
    front: Seq<usize>,
    back: Seq<usize>,
    levels: Seq<nat>,
)
    ensures
        listed_place(dimensions, front + back, levels) == listed_place(
            dimensions,
            front,
            levels,
        ) * subsystem::extent_of(dimensions, back) + listed_place(dimensions, back, levels),
    decreases back.len(),
{
    let whole = front + back;
    let p = listed_place(dimensions, front, levels) as int;
    if back.len() == 0 {
        assert(whole =~= front);
        lemma_mul_basics(p);
    } else {
        places_split(dimensions, front, back.drop_last(), levels);
        assert(whole.drop_last() =~= front + back.drop_last());
        assert(whole.last() == back.last());
        let size = dimensions[back.last() as int] as int;
        let e = subsystem::extent_of(dimensions, back.drop_last()) as int;
        let q = listed_place(dimensions, back.drop_last(), levels) as int;
        assert((p * e + q) * size == p * (e * size) + q * size) by (nonlinear_arith);
    }
}

/// The sites that are kept and the others are all sites, none twice.
pub proof fn every_site_is_kept_or_traced_out(kept: Seq<usize>, sites: nat, site: usize)
    requires
        subsystem::selectable(kept, sites),
        sites <= usize::MAX,
    ensures
        subsystem::others(kept, sites).contains(site) <==> site < sites && !kept.contains(site),
        (kept + subsystem::others(kept, sites)).contains(site) <==> site < sites,
        subsystem::others(kept, sites).no_duplicates(),
{
    lemma_others(kept, sites, site);
    let rest = subsystem::others(kept, sites);
    let whole = kept + rest;
    if site < sites {
        if kept.contains(site) {
            let i = choose|i: int| 0 <= i < kept.len() && kept[i] == site;
            assert(whole[i] == site);
        } else {
            let i = choose|i: int| 0 <= i < rest.len() && rest[i] == site;
            assert(whole[kept.len() + i] == site);
        }
    }
    if whole.contains(site) {
        let i = choose|i: int| 0 <= i < whole.len() && whole[i] == site;
        if i < kept.len() {
            assert(kept[i] == site);
        } else {
            assert(rest[i - kept.len()] == site);
        }
    }
}

proof fn lemma_others(kept: Seq<usize>, upto: nat, site: usize)
    requires
        upto <= usize::MAX,
    ensures
        subsystem::others(kept, upto).contains(site) <==> site < upto && !kept.contains(site),
        forall|i: int, j: int|
            0 <= i < j < subsystem::others(kept, upto).len() ==> subsystem::others(kept, upto)[i]
                < subsystem::others(kept, upto)[j],
        forall|i: int|
            0 <= i < subsystem::others(kept, upto).len() ==> #[trigger] subsystem::others(
                kept,
                upto,
            )[i] < upto,
    decreases upto,
{
    if upto > 0 {
        lemma_others(kept, (upto - 1) as nat, site);
        let front = subsystem::others(kept, (upto - 1) as nat);
        let list = subsystem::others(kept, upto);
        let last = (upto - 1) as usize;
        if !kept.contains(last) {
            assert(list[list.len() - 1] == last);
            if front.contains(site) {
                let i = choose|i: int| 0 <= i < front.len() && front[i] == site;
                assert(list[i] == site);
            }
            if list.contains(site) {
                let i = choose|i: int| 0 <= i < list.len() && list[i] == site;
                if i < front.len() {
                    assert(front[i] == site);
                }
            }
        }
    }
}

} // verus!
