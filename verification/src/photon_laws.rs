//! The number of states of matter coupled to one photon mode.

use vstd::prelude::*;
use crate::basis::Basis;
use crate::photon::PhotonBasis;
use crate::photon;
use crate::radix;
use crate::ranking;
use crate::spin::SpinBasis1D;
use crate::states;
use crate::tensor;

verus! {

/// The number of ones of a state.
pub open spec fn weight(state: u128, sites: nat) -> nat {
    radix::digit_sum(state as nat, 2, sites)
}

/// How many of the first states have from `from` to below `to` ones.
spec fn tally(list: Seq<u128>, sites: nat, from: nat, to: nat, upto: nat) -> nat
    decreases upto,
{
    if upto == 0 {
        0
    } else {
        let before = tally(list, sites, from, to, (upto - 1) as nat);
        if from <= weight(list[upto - 1], sites) < to {
            before + 1
        } else {
            before
        }
    }
}

proof fn lemma_tally_split(list: Seq<u128>, sites: nat, from: nat, to: nat, upto: nat)
    requires
        from <= to,
    ensures
        tally(list, sites, from, to + 1, upto) == tally(list, sites, from, to, upto) + tally(
            list,
            sites,
            to,
            to + 1,
            upto,
        ),
    decreases upto,
{
    if upto > 0 {
        lemma_tally_split(list, sites, from, to, (upto - 1) as nat);
    }
}

proof fn lemma_tally_none(list: Seq<u128>, sites: nat, from: nat, to: nat, upto: nat)
    requires
        to <= from,
    ensures
        tally(list, sites, from, to, upto) == 0,
    decreases upto,
{
    if upto > 0 {
        lemma_tally_none(list, sites, from, to, (upto - 1) as nat);
    }
}

/// The states with a number of ones among the first ones.
spec fn chosen(list: Seq<u128>, sites: nat, ones: nat, upto: nat) -> Seq<u128>
    decreases upto,
{
    if upto == 0 {
        Seq::empty()
    } else {
        let before = chosen(list, sites, ones, (upto - 1) as nat);
        if weight(list[upto - 1], sites) == ones {
            before.push(list[upto - 1])
        } else {
            before
        }
    }
}

proof fn lemma_chosen(list: Seq<u128>, sites: nat, ones: nat, upto: nat)
    requires
        states::ascending(list),
        upto <= list.len(),
    ensures
        chosen(list, sites, ones, upto).len() == tally(list, sites, ones, ones + 1, upto),
        states::ascending(chosen(list, sites, ones, upto)),
        forall|x: u128| #[trigger]
            chosen(list, sites, ones, upto).contains(x) <==> list.take(upto as int).contains(x)
                && weight(x, sites) == ones,
    decreases upto,
{
    if upto > 0 {
        let at = upto - 1;
        let before = chosen(list, sites, ones, at as nat);
        let last = list[at];
        lemma_chosen(list, sites, ones, at as nat);
        assert(list.take(upto as int) =~= list.take(at).push(last));
        states::lemma_contains_push(list.take(at), last);
        if weight(last, sites) == ones {
            states::lemma_contains_push(before, last);
            assert forall|i: int| 0 <= i < before.len() implies #[trigger] before[i] < last by {
                assert(before.contains(before[i]));
                let k = choose|k: int| 0 <= k < at && list.take(at)[k] == before[i];
                assert(list[k] < list[at]);
            }
        }
    } else {
        assert(list.take(0) =~= Seq::<u128>::empty());
    }
}

/// Among all states those with a number of ones are counted by the binomial coefficient.
proof fn lemma_tally_one(list: Seq<u128>, sites: usize, ones: usize)
    requires
        states::lists_sector(list, 2, sites as nat, None),
        radix::place(2, sites as nat) <= u128::MAX + 1,
    ensures
        tally(list, sites as nat, ones as nat, (ones + 1) as nat, list.len())
            == ranking::choose_count(sites as nat, ones as nat),
{
    let part = chosen(list, sites as nat, ones as nat, list.len());
    lemma_chosen(list, sites as nat, ones as nat, list.len());
    assert(list.take(list.len() as int) =~= list);
    assert forall|x: u128|
        #![trigger part.contains(x)]
        #![trigger states::in_sector(x, 2, sites as nat, Some(ones))]
        part.contains(x) <==> states::in_sector(x, 2, sites as nat, Some(ones)) by {
        assert(list.contains(x) <==> states::in_sector(x, 2, sites as nat, None));
        assert(part.contains(x) <==> list.take(list.len() as int).contains(x) && weight(
            x,
            sites as nat,
        ) == ones);
    }
    ranking::rank_is_position(part, sites as nat, ones);
}

proof fn lemma_tally_sum(list: Seq<u128>, sites: usize, from: nat, to: nat)
    requires
        states::lists_sector(list, 2, sites as nat, None),
        radix::place(2, sites as nat) <= u128::MAX + 1,
        to <= usize::MAX + 1,
    ensures
        tally(list, sites as nat, from, to, list.len()) == ranking::matter_count(
            sites as nat,
            from,
            to,
        ),
    decreases to,
{
    if to <= from {
        lemma_tally_none(list, sites as nat, from, to, list.len());
    } else {
        let ones = (to - 1) as nat;
        lemma_tally_sum(list, sites, from, ones);
        lemma_tally_split(list, sites as nat, from, ones, list.len());
        lemma_tally_one(list, sites, ones as usize);
    }
}

/// The rows of the first matter states, each with the photons that are left.
spec fn filled_rows(
    list: Seq<u128>,
    sites: nat,
    total: nat,
    columns: nat,
    from: nat,
    to: nat,
    upto: nat,
) -> Seq<int>
    decreases upto,
{
    if upto == 0 {
        Seq::empty()
    } else {
        let before = filled_rows(list, sites, total, columns, from, to, (upto - 1) as nat);
        let ones = weight(list[upto - 1], sites);
        if from <= ones < to {
            before.push((upto - 1) * columns + (total - ones))
        } else {
            before
        }
    }
}

/// A matter state has a row.
spec fn placed(
    list: Seq<u128>,
    sites: nat,
    total: nat,
    columns: nat,
    from: nat,
    to: nat,
    row: int,
    i: int,
) -> bool {
    from <= weight(list[i], sites) < to && row == i * columns + (total - weight(list[i], sites))
}

proof fn lemma_filled_rows(
    list: Seq<u128>,
    sites: nat,
    total: nat,
    columns: nat,
    from: nat,
    to: nat,
    upto: nat,
)
    requires
        upto <= list.len(),
        forall|i: int|
            0 <= i < list.len() && from <= #[trigger] weight(list[i], sites) < to ==> 0 <= total
                - weight(list[i], sites) < columns,
    ensures
        ({
            let rows = filled_rows(list, sites, total, columns, from, to, upto);
            &&& rows.len() == tally(list, sites, from, to, upto)
            &&& rows.no_duplicates()
            &&& forall|r: int| #[trigger] rows.contains(r) ==> 0 <= r < upto * columns
            &&& forall|r: int| #[trigger]
                rows.contains(r) <==> exists|i: int|
                    0 <= i < upto && #[trigger] placed(list, sites, total, columns, from, to, r, i)
        }),
    decreases upto,
{
    if upto > 0 {
        let at = upto - 1;
        lemma_filled_rows(list, sites, total, columns, from, to, at as nat);
        let before = filled_rows(list, sites, total, columns, from, to, at as nat);
        let rows = filled_rows(list, sites, total, columns, from, to, upto);
        let ones = weight(list[at], sites);
        assert(upto * columns == at * columns + columns) by (nonlinear_arith)
            requires
                upto == at + 1,
        ;
        if from <= ones < to {
            let last = at * columns + (total - ones);
            assert(0 <= total - ones < columns);
            assert(0 <= at * columns) by (nonlinear_arith)
                requires
                    at >= 0,
            ;
            assert(placed(list, sites, total, columns, from, to, last, at));
            assert(!before.contains(last));
            assert(rows.no_duplicates()) by {
                assert forall|i: int, j: int|
                    0 <= i < rows.len() && 0 <= j < rows.len() && i != j implies rows[i]
                    != rows[j] by {
                    if i == before.len() {
                        assert(before.contains(before[j]));
                    } else if j == before.len() {
                        assert(before.contains(before[i]));
                    }
                }
            }
            assert forall|r: int| #[trigger] rows.contains(r) <==> before.contains(r) || r
                == last by {
                if before.contains(r) {
                    let k = choose|k: int| 0 <= k < before.len() && before[k] == r;
                    assert(rows[k] == r);
                }
                if r == last {
                    assert(rows[before.len() as int] == r);
                }
                if rows.contains(r) {
                    let k = choose|k: int| 0 <= k < rows.len() && rows[k] == r;
                    if k < before.len() {
                        assert(before[k] == r);
                    }
                }
            }
        }
        assert forall|r: int| #[trigger] rows.contains(r) <==> exists|i: int|
            0 <= i < upto && #[trigger] placed(list, sites, total, columns, from, to, r, i) by {
            if rows.contains(r) {
                if before.contains(r) {
                    let i = choose|i: int|
                        0 <= i < at && #[trigger] placed(
                            list,
                            sites,
                            total,
                            columns,
                            from,
                            to,
                            r,
                            i,
                        );
                    assert(placed(list, sites, total, columns, from, to, r, i));
                }
            }
            if exists|i: int|
                0 <= i < upto && #[trigger] placed(list, sites, total, columns, from, to, r, i) {
                let i = choose|i: int|
                    0 <= i < upto && #[trigger] placed(list, sites, total, columns, from, to, r, i);
                if i < at {
                    assert(before.contains(r));
                }
            }
        }
    }
}

/// The selected rows, as numbers.
spec fn wide_rows(rows: Seq<usize>) -> Seq<int> {
    rows.map_values(|row: usize| row as int)
}

/// A row of spins one half and photons up to a cutoff holds the photons that its matter
/// leaves.
proof fn lemma_row_count(
    basis: &PhotonBasis<SpinBasis1D>,
    sites: usize,
    total: usize,
    cutoff: usize,
    excitations: Seq<usize>,
)
    requires
        basis.wf(),
        radix::place(2, sites as nat) <= u128::MAX + 1,
        states::lists_sector(basis.pairs().spec_left().listed(), 2, sites as nat, None),
        basis.pairs().spec_right().listed().len() == cutoff + 1,
        forall|j: int|
            0 <= j <= cutoff ==> #[trigger] basis.pairs().spec_right().listed()[j] == j,
        excitations.len() == basis.pairs().spec_left().listed().len(),
        forall|i: int|
            0 <= i < excitations.len() ==> #[trigger] excitations[i] == weight(
                basis.pairs().spec_left().listed()[i],
                sites as nat,
            ),
        photon::selects(
            &basis.pairs(),
            excitations,
            Some(total),
            basis.pairs().listed().len() as int,
            basis.selected(),
        ),
    ensures
        basis.selected().len() == ranking::matter_count(
            sites as nat,
            ranking::least_matter(total, Some(cutoff)),
            ranking::matter_bound(sites, total),
        ),
{
    let list = basis.pairs().spec_left().listed();
    let photons = basis.pairs().spec_right().listed();
    let n = sites as nat;
    let columns = (cutoff + 1) as nat;
    let from = ranking::least_matter(total, Some(cutoff));
    let to = ranking::matter_bound(sites, total);
    let all = tensor::all_pairs(list, photons);
    let selected = basis.selected();
    assert(basis.pairs().listed() == all);
    assert forall|i: int| 0 <= i < list.len() implies #[trigger] weight(list[i], n) <= n by {
        let ds = radix::digits(list[i] as nat, 2, n);
        radix::lemma_digits_valid(list[i] as nat, 2, n);
        radix::lemma_total_bound(ds, 2);
        assert(ds.len() * 1 == n);
    }
    lemma_filled_rows(list, n, total as nat, columns, from, to, list.len());
    lemma_tally_sum(list, sites, from, to);
    let rows = filled_rows(list, n, total as nat, columns, from, to, list.len());
    let wide = wide_rows(selected);
    assert forall|r: int| wide.contains(r) <==> #[trigger] rows.contains(r) by {
        if wide.contains(r) {
            let k = choose|k: int| 0 <= k < wide.len() && wide[k] == r;
            assert(selected[k] == r);
            tensor::lemma_position_parts(r, list.len() as int, columns as int);
            let i = r / (columns as int);
            let j = r % (columns as int);
            assert(photon::wanted(all[r], excitations[i], Some(total)));
            assert(all[r].right == photons[j]);
            assert(excitations[i] == weight(list[i], n));
            assert(weight(list[i], n) <= n);
            assert(placed(list, n, total as nat, columns, from, to, r, i));
        }
        if rows.contains(r) {
            let i = choose|i: int|
                0 <= i < list.len() && #[trigger] placed(
                    list,
                    n,
                    total as nat,
                    columns,
                    from,
                    to,
                    r,
                    i,
                );
            let j = total - weight(list[i], n);
            tensor::lemma_pair_position(i, j, list.len() as int, columns as int);
            assert(excitations[i] == weight(list[i], n));
            assert(photons[j] == j);
            assert(photon::wanted(
                basis.pairs().listed()[r],
                excitations[r / (columns as int)],
                Some(total),
            ));
            assert(selected.contains(r as usize));
            let k = choose|k: int| 0 <= k < selected.len() && selected[k] == r as usize;
            assert(0 <= r < usize::MAX + 1);
            assert(wide[k] == r);
        }
    }
    assert(wide.no_duplicates()) by {
        assert forall|i: int, j: int|
            0 <= i < wide.len() && 0 <= j < wide.len() && i != j implies wide[i] != wide[j] by {
            if i < j {
                assert(selected[i] < selected[j]);
            } else {
                assert(selected[j] < selected[i]);
            }
        }
    }
    assert(wide.to_set() =~= rows.to_set());
    wide.unique_seq_to_set();
    rows.unique_seq_to_set();
}

/// The spins of a chain without a selected sector take on all states.
pub proof fn free_spins_take_all_states(basis: &SpinBasis1D)
    requires
        basis.wf(),
        basis.spec_spin_twice() == 1,
        basis.spec_up() is None,
        basis.ring().momentum is None,
        basis.ring().parity is None,
    ensures
        states::lists_sector(basis.listed(), 2, basis.spec_sites() as nat, None),
        radix::place(2, basis.spec_sites() as nat) <= u128::MAX + 1,
{
    let ring = basis.ring();
    let list = basis.spec_sector().states@;
    let n = basis.spec_sites() as nat;
    assert forall|x: u128|
        #![trigger list.contains(x)]
        #![trigger states::in_sector(x, 2, n, None)]
        list.contains(x) <==> states::in_sector(x, 2, n, None) by {
        if states::in_sector(x, 2, n, None) {
            let s = x as nat;
            ring.lemma_identity(s);
            assert(ring.is_representative(s, s)) by {
                assert(ring.act((0, false), s) == s);
                assert forall|g: (nat, bool)| ring.element(g) implies s <= #[trigger] ring.act(
                    g,
                    s,
                ) by {
                    assert(g == (0nat, false));
                }
            }
            assert(ring.survives(s)) by {
                assert forall|g: (nat, bool)|
                    ring.element(g) && #[trigger] ring.act(g, s) == s implies ring.turn(g, s)
                    == 0 by {
                    assert(g == (0nat, false));
                }
            }
        }
    }
}

/// The dimension that is computed for spins one half with one photon mode is the number of
/// states of the basis with that number of excitations and that photon cutoff, and of the
/// basis of all pairs.
pub proof fn photon_dimension_counts_the_basis(
    basis: &PhotonBasis<SpinBasis1D>,
    cutoff: usize,
    excitations: Seq<usize>,
)
    requires
        basis.wf(),
        basis.pairs().spec_left().wf(),
        basis.pairs().spec_left().spec_spin_twice() == 1,
        basis.pairs().spec_left().spec_up() is None,
        basis.pairs().spec_left().ring().momentum is None,
        basis.pairs().spec_left().ring().parity is None,
        basis.pairs().spec_right().wf(),
        basis.pairs().spec_right().spec_sites() == 1,
        basis.pairs().spec_right().spec_states_per_site() == cutoff + 1,
        basis.pairs().spec_right().spec_particles() is None,
        match basis.count() {
            Some(total) => {
                &&& excitations.len() == basis.pairs().spec_left().listed().len()
                &&& forall|i: int|
                    0 <= i < excitations.len() ==> #[trigger] excitations[i] == weight(
                        basis.pairs().spec_left().listed()[i],
                        basis.pairs().spec_left().spec_sites() as nat,
                    )
                &&& photon::selects(
                    &basis.pairs(),
                    excitations,
                    Some(total),
                    basis.pairs().listed().len() as int,
                    basis.selected(),
                )
            },
            None => basis.selected() == photon::every_row(basis.pairs().listed().len()),
        },
    ensures
        ranking::photon_dimension(
            basis.pairs().spec_left().spec_sites(),
            basis.count(),
            Some(cutoff),
        ) == Some(basis.selected().len()),
{
    let spins = basis.pairs().spec_left();
    let sites = spins.spec_sites();
    let photons = basis.pairs().spec_right().listed();
    free_spins_take_all_states(&spins);
    let limit = (cutoff + 1) as nat;
    assert(radix::place(limit, 1) == limit) by {
        reveal_with_fuel(radix::place, 2);
        vstd::arithmetic::mul::lemma_mul_basics(limit as int);
    }
    assert forall|x: u128| #[trigger] photons.contains(x) <==> x < limit by {
        assert(photons.contains(x) <==> states::in_sector(x, limit, 1, None));
    }
    states::lemma_full_list(photons, limit);
    match basis.count() {
        Some(total) => {
            lemma_row_count(basis, sites, total, cutoff, excitations);
        },
        None => {
            let list = spins.listed();
            let size = radix::place(2, sites as nat);
            assert forall|x: u128| #[trigger] list.contains(x) <==> x < size by {
                assert(list.contains(x) <==> states::in_sector(x, 2, sites as nat, None));
            }
            assert(list.len() <= usize::MAX) by {
                assert(list == spins.spec_sector().states@);
                assert(spins.spec_sector().states.len() <= usize::MAX);
            }
            if size > u128::MAX {
                lemma_whole_range(list);
            } else {
                states::lemma_full_list(list, size);
            }
        },
    }
}

/// No list that fits memory holds every state of the widest chain.
proof fn lemma_whole_range(list: Seq<u128>)
    requires
        forall|x: u128| #[trigger] list.contains(x),
        list.len() <= usize::MAX,
    ensures
        list.len() == 0,
{
    let small = Seq::new((usize::MAX + 1) as nat, |i: int| i as u128);
    assert(small.no_duplicates()) by {
        assert forall|i: int, j: int|
            0 <= i < small.len() && 0 <= j < small.len() && i != j implies small[i] != small[j] by {
            assert(small[i] == i && small[j] == j);
        }
    }
    small.unique_seq_to_set();
    assert(small.to_set().subset_of(list.to_set())) by {
        assert forall|x: u128| small.to_set().contains(x) implies list.to_set().contains(x) by {
            assert(list.contains(x));
        }
    }
    list.lemma_cardinality_of_set();
    vstd::set_lib::lemma_len_subset(small.to_set(), list.to_set());
}

} // verus!
