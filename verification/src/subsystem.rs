//! Reduced density matrices of any of the sites of a lattice.

use vstd::prelude::*;
use vstd::arithmetic::div_mod::*;
use crate::error::{QmbedError, Result};
use crate::measurement;
use crate::operator;
use crate::scalar::Normed;

verus! {

/// The number of states of the first sites.
pub open spec fn extent(dimensions: Seq<usize>, upto: nat) -> nat
    decreases upto,
{
    if upto == 0 {
        1
    } else {
        extent(dimensions, (upto - 1) as nat) * (dimensions[upto - 1] as nat)
    }
}

/// The number of states of some sites.
pub open spec fn extent_of(dimensions: Seq<usize>, sites: Seq<usize>) -> nat
    decreases sites.len(),
{
    if sites.len() == 0 {
        1
    } else {
        extent_of(dimensions, sites.drop_last()) * (dimensions[sites.last() as int] as nat)
    }
}

/// The place of local states among the states of the first sites; the first site counts
/// most.
pub open spec fn place(dimensions: Seq<usize>, levels: Seq<nat>, upto: nat) -> nat
    decreases upto,
{
    if upto == 0 {
        0
    } else {
        place(dimensions, levels, (upto - 1) as nat) * (dimensions[upto - 1] as nat)
            + levels[upto - 1]
    }
}

/// The local states of a place in which the sites count in the given order.
pub open spec fn levels_of(dimensions: Seq<usize>, order: Seq<usize>, at: nat) -> Seq<nat>
    decreases order.len(),
{
    if order.len() == 0 {
        Seq::new(dimensions.len(), |i: int| 0)
    } else {
        let size = dimensions[order.last() as int] as nat;
        levels_of(dimensions, order.drop_last(), at / size).update(
            order.last() as int,
            at % size,
        )
    }
}

/// The components of a state with its sites brought into the given order.
pub open spec fn reordered<V>(state: Seq<V>, dimensions: Seq<usize>, order: Seq<usize>) -> Seq<V> {
    Seq::new(
        state.len(),
        |at: int|
            state[place(
                dimensions,
                levels_of(dimensions, order, at as nat),
                dimensions.len(),
            ) as int],
    )
}

/// The sites that are not kept, in ascending order.
pub open spec fn others(kept: Seq<usize>, upto: nat) -> Seq<usize>
    decreases upto,
{
    if upto == 0 {
        Seq::empty()
    } else {
        let front = others(kept, (upto - 1) as nat);
        if kept.contains((upto - 1) as usize) {
            front
        } else {
            front.push((upto - 1) as usize)
        }
    }
}

/// Every kept site is a site of the lattice, and none is kept twice.
pub open spec fn selectable(kept: Seq<usize>, sites: nat) -> bool {
    &&& forall|i: int| 0 <= i < kept.len() ==> #[trigger] kept[i] < sites
    &&& kept.no_duplicates()
}

proof fn lemma_levels(dimensions: Seq<usize>, order: Seq<usize>, at: nat)
    requires
        forall|i: int| 0 <= i < dimensions.len() ==> #[trigger] dimensions[i] > 0,
        forall|i: int| 0 <= i < order.len() ==> #[trigger] order[i] < dimensions.len(),
    ensures
        levels_of(dimensions, order, at).len() == dimensions.len(),
        forall|i: int|
            0 <= i < dimensions.len() ==> #[trigger] levels_of(dimensions, order, at)[i]
                < dimensions[i],
    decreases order.len(),
{
    if order.len() > 0 {
        let last = order[order.len() - 1];
        let size = dimensions[last as int] as nat;
        let front = order.drop_last();
        assert forall|i: int| 0 <= i < front.len() implies #[trigger] front[i]
            < dimensions.len() by {
            assert(front[i] == order[i]);
        }
        lemma_levels(dimensions, front, at / size);
        lemma_mod_bound(at as int, size as int);
    }
}

proof fn lemma_extent_monotone(dimensions: Seq<usize>, low: nat, high: nat)
    requires
        low <= high <= dimensions.len(),
        forall|i: int| 0 <= i < dimensions.len() ==> #[trigger] dimensions[i] > 0,
    ensures
        0 < extent(dimensions, low) <= extent(dimensions, high),
    decreases high,
{
    if low < high {
        lemma_extent_monotone(dimensions, low, (high - 1) as nat);
        let before = extent(dimensions, (high - 1) as nat);
        let size = dimensions[high - 1] as nat;
        assert(before <= before * size) by (nonlinear_arith)
            requires
                size >= 1,
                before >= 0,
        ;
    } else if low > 0 {
        lemma_extent_monotone(dimensions, (low - 1) as nat, (low - 1) as nat);
        let before = extent(dimensions, (low - 1) as nat);
        let size = dimensions[low - 1] as nat;
        assert(before * size > 0) by (nonlinear_arith)
            requires
                size > 0,
                before > 0,
        ;
    }
}

proof fn lemma_place_step(before: nat, size: nat, inner: nat, level: nat)
    requires
        inner < before,
        level < size,
    ensures
        inner * size + level < before * size,
{
    assert(inner * size + level < before * size) by (nonlinear_arith)
        requires
            inner < before,
            level < size,
    ;
}

/// Where a component of the reordered state comes from.
fn origin(dimensions: &[usize], order: &[usize], at: usize) -> (index: usize)
    requires
        forall|i: int| 0 <= i < dimensions@.len() ==> #[trigger] dimensions@[i] > 0,
        forall|i: int| 0 <= i < order@.len() ==> #[trigger] order@[i] < dimensions@.len(),
        extent(dimensions@, dimensions@.len()) <= usize::MAX,
    ensures
        index == place(
            dimensions@,
            levels_of(dimensions@, order@, at as nat),
            dimensions@.len(),
        ),
        index < extent(dimensions@, dimensions@.len()),
{
    let levels: Vec<usize> = local_levels(dimensions, order, order.len(), at);
    assert(order@.take(order@.len() as int) =~= order@);
    let ghost wide = levels_of(dimensions@, order@, at as nat);
    proof {
        lemma_levels(dimensions@, order@, at as nat);
    }
    let mut index: usize = 0;
    let mut site: usize = 0;
    while site < dimensions.len()
        invariant
            site <= dimensions@.len(),
            levels@.len() == dimensions@.len(),
            wide.len() == dimensions@.len(),
            forall|i: int| 0 <= i < dimensions@.len() ==> #[trigger] dimensions@[i] > 0,
            forall|i: int| 0 <= i < wide.len() ==> levels@[i] == #[trigger] wide[i],
            forall|i: int| 0 <= i < wide.len() ==> #[trigger] wide[i] < dimensions@[i],
            extent(dimensions@, dimensions@.len()) <= usize::MAX,
            index == place(dimensions@, wide, site as nat),
            index < extent(dimensions@, site as nat),
        decreases dimensions@.len() - site,
    {
        proof {
            assert(levels@[site as int] == wide[site as int]);
            lemma_place_step(
                extent(dimensions@, site as nat),
                dimensions@[site as int] as nat,
                index as nat,
                wide[site as int],
            );
            lemma_extent_monotone(dimensions@, (site + 1) as nat, dimensions@.len());
            assert(index * dimensions@[site as int] >= 0) by (nonlinear_arith);
        }
        index = index * dimensions[site] + levels[site];
        site = site + 1;
    }
    index
}

/// The local states of a place in which the first sites of an order count.
fn local_levels(dimensions: &[usize], order: &[usize], upto: usize, at: usize) -> (levels: Vec<
    usize,
>)
    requires
        upto <= order@.len(),
        forall|i: int| 0 <= i < dimensions@.len() ==> #[trigger] dimensions@[i] > 0,
        forall|i: int| 0 <= i < order@.len() ==> #[trigger] order@[i] < dimensions@.len(),
    ensures
        levels@.len() == dimensions@.len(),
        levels_of(dimensions@, order@.take(upto as int), at as nat).len() == dimensions@.len(),
        forall|i: int|
            0 <= i < dimensions@.len() ==> #[trigger] levels@[i] == levels_of(
                dimensions@,
                order@.take(upto as int),
                at as nat,
            )[i],
    decreases upto,
{
    if upto == 0 {
        let mut levels: Vec<usize> = Vec::new();
        while levels.len() < dimensions.len()
            invariant
                levels@.len() <= dimensions@.len(),
                forall|i: int| 0 <= i < levels@.len() ==> #[trigger] levels@[i] == 0,
            decreases dimensions@.len() - levels@.len(),
        {
            levels.push(0);
        }
        return levels;
    }
    let site: usize = order[upto - 1];
    let size: usize = dimensions[site];
    let ghost shorter = order@.take(upto - 1);
    assert(order@.take(upto as int).drop_last() =~= shorter);
    let mut levels: Vec<usize> = local_levels(dimensions, order, upto - 1, at / size);
    levels.set(site, at % size);
    levels
}

/// The product of the dimensions of some sites, as far as it is a machine integer.
fn size_of(dimensions: &[usize], sites: &[usize]) -> (size: Option<usize>)
    requires
        forall|i: int| 0 <= i < dimensions@.len() ==> #[trigger] dimensions@[i] > 0,
        forall|i: int| 0 <= i < sites@.len() ==> #[trigger] sites@[i] < dimensions@.len(),
    ensures
        match size {
            Some(product) => product == extent_of(dimensions@, sites@) && product > 0,
            None => extent_of(dimensions@, sites@) > usize::MAX,
        },
{
    let mut product: usize = 1;
    let mut index: usize = 0;
    assert(sites@.take(0) =~= Seq::<usize>::empty());
    while index < sites.len()
        invariant
            index <= sites@.len(),
            forall|i: int| 0 <= i < dimensions@.len() ==> #[trigger] dimensions@[i] > 0,
            forall|i: int| 0 <= i < sites@.len() ==> #[trigger] sites@[i] < dimensions@.len(),
            product == extent_of(dimensions@, sites@.take(index as int)),
            product > 0,
        decreases sites@.len() - index,
    {
        assert(sites@.take(index + 1).drop_last() =~= sites@.take(index as int));
        let size: usize = dimensions[sites[index]];
        match product.checked_mul(size) {
            Some(next) => {
                assert(next > 0) by (nonlinear_arith)
                    requires
                        next == product * size,
                        product > 0,
                        size > 0,
                ;
                product = next;
            },
            None => {
                proof {
                    lemma_extent_of_prefix(dimensions@, sites@, (index + 1) as nat);
                }
                return None;
            },
        }
        index = index + 1;
    }
    assert(sites@.take(index as int) =~= sites@);
    Some(product)
}

proof fn lemma_extent_of_prefix(dimensions: Seq<usize>, sites: Seq<usize>, upto: nat)
    requires
        upto <= sites.len(),
        forall|i: int| 0 <= i < dimensions.len() ==> #[trigger] dimensions[i] > 0,
        forall|i: int| 0 <= i < sites.len() ==> #[trigger] sites[i] < dimensions.len(),
    ensures
        extent_of(dimensions, sites.take(upto as int)) <= extent_of(dimensions, sites),
    decreases sites.len() - upto,
{
    if upto == sites.len() {
        assert(sites.take(upto as int) =~= sites);
    } else {
        lemma_extent_of_prefix(dimensions, sites, upto + 1);
        let longer = sites.take(upto as int + 1);
        assert(longer.drop_last() =~= sites.take(upto as int));
        let before = extent_of(dimensions, sites.take(upto as int));
        let size = dimensions[sites[upto as int] as int] as nat;
        assert(before <= before * size) by (nonlinear_arith)
            requires
                size >= 1,
                before >= 0,
        ;
    }
}

fn holds_site(sites: &[usize], upto: usize, site: usize) -> (found: bool)
    requires
        upto <= sites@.len(),
    ensures
        found == sites@.take(upto as int).contains(site),
{
    let mut index: usize = 0;
    while index < upto
        invariant
            index <= upto,
            upto <= sites@.len(),
            forall|i: int| 0 <= i < index ==> #[trigger] sites@[i] != site,
        decreases upto - index,
    {
        if sites[index] == site {
            assert(sites@.take(upto as int)[index as int] == site);
            return true;
        }
        index = index + 1;
    }
    proof {
        let part = sites@.take(upto as int);
        if part.contains(site) {
            let i = choose|i: int| 0 <= i < part.len() && part[i] == site;
            assert(sites@[i] == site);
        }
    }
    false
}

/// Every site has a state, the kept and the other sites make up the lattice, and the
/// reduced density matrix is a possible size.
pub open spec fn divisible(dimensions: Seq<usize>, kept: Seq<usize>) -> bool {
    &&& forall|i: int| 0 <= i < dimensions.len() ==> #[trigger] dimensions[i] > 0
    &&& extent(dimensions, dimensions.len()) <= usize::MAX
    &&& extent(dimensions, dimensions.len()) == extent_of(dimensions, kept) * extent_of(
        dimensions,
        others(kept, dimensions.len()),
    )
    &&& extent_of(dimensions, kept) * extent_of(dimensions, kept) <= usize::MAX
}

/// The state has as many components as the lattice has states, and the lattice can be
/// divided.
pub open spec fn traceable<V>(state: Seq<V>, dimensions: Seq<usize>, kept: Seq<usize>) -> bool {
    divisible(dimensions, kept) && state.len() == extent(dimensions, dimensions.len())
}

/// The sites with the kept ones first, and the numbers of states of both parts.
struct Division {
    order: Vec<usize>,
    inner: usize,
    outer: usize,
}

/// Divides a lattice into the kept sites and the others.
fn divide(dimensions: &[usize], kept: &[usize]) -> (result: Result<Division>)
    ensures
        match result {
            Ok(division) => {
                &&& selectable(kept@, dimensions@.len())
                &&& divisible(dimensions@, kept@)
                &&& division.order@ == kept@ + others(kept@, dimensions@.len())
                &&& forall|i: int|
                    0 <= i < division.order@.len() ==> #[trigger] division.order@[i]
                        < dimensions@.len()
                &&& division.inner == extent_of(dimensions@, kept@)
                &&& division.outer == extent_of(dimensions@, others(kept@, dimensions@.len()))
                &&& division.inner > 0 && division.outer > 0
            },
            Err(QmbedError::InvalidSite { site, sites }) => sites == dimensions@.len() && site
                >= sites && kept@.contains(site),
            Err(QmbedError::InvalidOptions(_)) => !kept@.no_duplicates(),
            Err(QmbedError::DimensionMismatch(_)) => selectable(kept@, dimensions@.len())
                && !divisible(dimensions@, kept@),
            Err(_) => false,
        },
{
    let sites: usize = dimensions.len();
    let mut order: Vec<usize> = Vec::new();
    while order.len() < kept.len()
        invariant
            sites == dimensions@.len(),
            order@.len() <= kept@.len(),
            order@ =~= kept@.take(order@.len() as int),
            forall|i: int| 0 <= i < order@.len() ==> #[trigger] kept@[i] < sites,
            forall|i: int, j: int| 0 <= i < j < order@.len() ==> kept@[i] != kept@[j],
        decreases kept@.len() - order@.len(),
    {
        let site: usize = kept[order.len()];
        if site >= sites {
            assert(kept@.contains(site));
            return Err(QmbedError::InvalidSite { site, sites });
        }
        if holds_site(kept, order.len(), site) {
            proof {
                let part = kept@.take(order@.len() as int);
                let i = choose|i: int| 0 <= i < part.len() && part[i] == site;
                assert(kept@[i] == kept@[order@.len() as int]);
            }
            return Err(QmbedError::InvalidOptions("a site is kept twice".to_string()));
        }
        proof {
            assert forall|i: int| 0 <= i < order@.len() implies kept@[i] != site by {
                assert(kept@.take(order@.len() as int)[i] == kept@[i]);
            }
        }
        order.push(site);
    }
    assert(selectable(kept@, sites as nat));
    let mut site: usize = 0;
    let mut total: usize = 1;
    while site < sites
        invariant
            sites == dimensions@.len(),
            site <= sites,
            forall|i: int| 0 <= i < site ==> #[trigger] dimensions@[i] > 0,
            selectable(kept@, sites as nat),
            total == extent(dimensions@, site as nat),
        decreases sites - site,
    {
        let size: usize = dimensions[site];
        if size == 0 {
            return Err(wrong_length());
        }
        match total.checked_mul(size) {
            Some(next) => {
                total = next;
            },
            None => {
                proof {
                    if divisible(dimensions@, kept@) {
                        lemma_extent_monotone(dimensions@, (site + 1) as nat, sites as nat);
                        assert(false);
                    }
                }
                return Err(wrong_length());
            },
        }
        site = site + 1;
    }
    let mut rest: Vec<usize> = Vec::new();
    site = 0;
    assert(kept@.take(kept@.len() as int) =~= kept@);
    while site < sites
        invariant
            sites == dimensions@.len(),
            site <= sites,
            kept@.take(kept@.len() as int) == kept@,
            rest@ == others(kept@, site as nat),
            forall|i: int| 0 <= i < rest@.len() ==> #[trigger] rest@[i] < sites,
        decreases sites - site,
    {
        if !holds_site(kept, kept.len(), site) {
            rest.push(site);
        }
        site = site + 1;
    }
    let inner: usize = match size_of(dimensions, kept) {
        Some(inner) => inner,
        None => {
            proof {
                let k = extent_of(dimensions@, kept@);
                assert(k * k > usize::MAX) by (nonlinear_arith)
                    requires
                        k > usize::MAX,
                ;
            }
            return Err(wrong_length());
        },
    };
    let outer: usize = match size_of(dimensions, rest.as_slice()) {
        Some(outer) => outer,
        None => {
            proof {
                let k = extent_of(dimensions@, kept@);
                let e = extent_of(dimensions@, rest@);
                assert(k * e > usize::MAX) by (nonlinear_arith)
                    requires
                        k >= 1,
                        e > usize::MAX,
                ;
            }
            return Err(wrong_length());
        },
    };
    let matches: bool = match inner.checked_mul(outer) {
        Some(product) => product == total,
        None => false,
    };
    if !matches || inner.checked_mul(inner).is_none() {
        return Err(wrong_length());
    }
    let ghost whole = kept@ + rest@;
    let mut index: usize = 0;
    while index < rest.len()
        invariant
            index <= rest@.len(),
            order@ =~= kept@ + rest@.take(index as int),
        decreases rest@.len() - index,
    {
        order.push(rest[index]);
        index = index + 1;
    }
    assert(order@ =~= whole);
    proof {
        assert forall|i: int| 0 <= i < order@.len() implies #[trigger] order@[i]
            < dimensions@.len() by {
            if i < kept@.len() {
                assert(order@[i] == kept@[i]);
            } else {
                assert(order@[i] == rest@[i - kept@.len()]);
            }
        }
    }
    Ok(Division { order, inner, outer })
}

/// The reduced density matrix of the kept sites, in the order in which they are given.
pub fn partial_trace_subsystem<V: Normed>(
    state: &[V],
    dimensions: &[usize],
    kept: &[usize],
) -> (result: Result<Vec<V>>)
    ensures
        match result {
            Ok(density) => {
                &&& selectable(kept@, dimensions@.len())
                &&& traceable(state@, dimensions@, kept@)
                &&& measurement::reduces(
                    reordered(
                        state@,
                        dimensions@,
                        kept@ + others(kept@, dimensions@.len()),
                    ),
                    extent_of(dimensions@, kept@) as int,
                    extent_of(dimensions@, others(kept@, dimensions@.len())) as int,
                    density@,
                )
            },
            Err(QmbedError::InvalidSite { site, sites }) => sites == dimensions@.len() && site
                >= sites && kept@.contains(site),
            Err(QmbedError::DimensionMismatch(_)) => selectable(kept@, dimensions@.len())
                && !traceable(state@, dimensions@, kept@),
            Err(QmbedError::InvalidOptions(_)) => !kept@.no_duplicates() || (traceable(
                state@,
                dimensions@,
                kept@,
            ) && !V::positive(
                measurement::norm_total(
                    reordered(
                        state@,
                        dimensions@,
                        kept@ + others(kept@, dimensions@.len()),
                    ),
                    state@.len(),
                ),
            )),
            Err(_) => false,
        },
{
    let Division { order, inner, outer } = match divide(dimensions, kept) {
        Ok(division) => division,
        Err(error) => {
            return Err(error);
        },
    };
    assert(extent(dimensions@, dimensions@.len()) == inner * outer);
    let total: usize = state.len();
    if total != inner * outer {
        return Err(wrong_length());
    }
    let mut turned: Vec<V> = Vec::new();
    while turned.len() < total
        invariant
            turned@.len() <= total,
            total == state@.len(),
            total == extent(dimensions@, dimensions@.len()),
            forall|i: int| 0 <= i < dimensions@.len() ==> #[trigger] dimensions@[i] > 0,
            forall|i: int| 0 <= i < order@.len() ==> #[trigger] order@[i] < dimensions@.len(),
            turned@ =~= reordered(state@, dimensions@, order@).take(turned@.len() as int),
        decreases total - turned@.len(),
    {
        let from: usize = origin(dimensions, order.as_slice(), turned.len());
        turned.push(state[from]);
    }
    assert(turned@ =~= reordered(state@, dimensions@, order@));
    measurement::partial_trace(turned.as_slice(), inner, outer)
}

/// The cells of a density matrix with the sites brought into the given order.
pub open spec fn reordered_density<V>(
    density: Seq<V>,
    dimensions: Seq<usize>,
    order: Seq<usize>,
    size: nat,
) -> Seq<V> {
    Seq::new(
        size * size,
        |at: int|
            density[operator::cell_index(
                size as int,
                place(
                    dimensions,
                    levels_of(dimensions, order, (at / (size as int)) as nat),
                    dimensions.len(),
                ) as int,
                place(
                    dimensions,
                    levels_of(dimensions, order, (at % (size as int)) as nat),
                    dimensions.len(),
                ) as int,
            )],
    )
}

/// The density matrix has the states of the lattice as rows and columns, and the lattice can
/// be divided.
pub open spec fn density_traceable<V>(
    density: Seq<V>,
    dimensions: Seq<usize>,
    kept: Seq<usize>,
) -> bool {
    divisible(dimensions, kept) && density.len() == extent(dimensions, dimensions.len()) * extent(
        dimensions,
        dimensions.len(),
    )
}

/// The reduced density matrix of the kept sites of a mixed state, in the order in which they
/// are given.
pub fn partial_trace_density_subsystem<V: Normed>(
    density: &[V],
    dimensions: &[usize],
    kept: &[usize],
) -> (result: Result<Vec<V>>)
    ensures
        ({
            let order = kept@ + others(kept@, dimensions@.len());
            let size = extent(dimensions@, dimensions@.len());
            let turned = reordered_density(density@, dimensions@, order, size);
            match result {
                Ok(reduced) => {
                    &&& selectable(kept@, dimensions@.len())
                    &&& density_traceable(density@, dimensions@, kept@)
                    &&& V::positive(measurement::diagonal_total(turned, size as int, size))
                    &&& measurement::density_reduces(
                        turned,
                        extent_of(dimensions@, kept@) as int,
                        extent_of(dimensions@, others(kept@, dimensions@.len())) as int,
                        reduced@,
                    )
                },
                Err(QmbedError::InvalidSite { site, sites }) => sites == dimensions@.len() && site
                    >= sites && kept@.contains(site),
                Err(QmbedError::DimensionMismatch(_)) => selectable(kept@, dimensions@.len())
                    && !density_traceable(density@, dimensions@, kept@),
                Err(QmbedError::InvalidOptions(_)) => !kept@.no_duplicates() || (density_traceable(
                    density@,
                    dimensions@,
                    kept@,
                ) && !V::positive(measurement::diagonal_total(turned, size as int, size))),
                Err(_) => false,
            }
        }),
{
    let Division { order, inner, outer } = match divide(dimensions, kept) {
        Ok(division) => division,
        Err(error) => {
            return Err(error);
        },
    };
    assert(extent(dimensions@, dimensions@.len()) == inner * outer);
    let length: usize = density.len();
    let size: usize = inner * outer;
    let fits: bool = match size.checked_mul(size) {
        Some(area) => area == length,
        None => false,
    };
    if !fits {
        return Err(wrong_length());
    }
    let ghost n = size as int;
    let mut turned: Vec<V> = Vec::new();
    let mut row: usize = 0;
    assert(0 * n == 0) by (nonlinear_arith);
    while row < size
        invariant
            n == size,
            length == density@.len(),
            density@.len() == size * size,
            size == extent(dimensions@, dimensions@.len()),
            forall|i: int| 0 <= i < dimensions@.len() ==> #[trigger] dimensions@[i] > 0,
            forall|i: int| 0 <= i < order@.len() ==> #[trigger] order@[i] < dimensions@.len(),
            row <= size,
            turned@.len() == row * n,
            row * n <= n * n,
            turned@ =~= reordered_density(density@, dimensions@, order@, size as nat).take(
                row * n,
            ),
        decreases size - row,
    {
        let upper: usize = origin(dimensions, order.as_slice(), row);
        let mut column: usize = 0;
        proof {
            assert((row + 1) * n == row * n + n) by (nonlinear_arith);
            assert((row + 1) * n <= n * n) by (nonlinear_arith)
                requires
                    row + 1 <= n,
            ;
        }
        while column < size
            invariant
                n == size,
                length == density@.len(),
                density@.len() == size * size,
                size == extent(dimensions@, dimensions@.len()),
                forall|i: int| 0 <= i < dimensions@.len() ==> #[trigger] dimensions@[i] > 0,
                forall|i: int| 0 <= i < order@.len() ==> #[trigger] order@[i] < dimensions@.len(),
                row < size,
                row * n + n <= n * n,
                upper < size,
                upper == place(
                    dimensions@,
                    levels_of(dimensions@, order@, row as nat),
                    dimensions@.len(),
                ),
                column <= size,
                turned@.len() == row * n + column,
                turned@ =~= reordered_density(density@, dimensions@, order@, size as nat).take(
                    row * n + column,
                ),
            decreases size - column,
        {
            let lower: usize = origin(dimensions, order.as_slice(), column);
            proof {
                operator::lemma_cell_index(n, n, upper as int, lower as int);
                lemma_fundamental_div_mod_converse(row * n + column, n, row as int, column as int);
            }
            turned.push(density[upper * size + lower]);
            column = column + 1;
        }
        row = row + 1;
    }
    assert(turned@ =~= reordered_density(density@, dimensions@, order@, size as nat));
    measurement::partial_trace_density(turned.as_slice(), inner, outer)
}

fn wrong_length() -> (error: QmbedError)
    ensures
        error is DimensionMismatch,
{
    QmbedError::DimensionMismatch(
        "the state does not match the dimensions of the sites".to_string(),
    )
}

} // verus!
