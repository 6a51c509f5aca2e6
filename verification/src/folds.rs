//! Sums along the rows and columns of a matrix.

use vstd::prelude::*;
use crate::compressed;
use crate::scalar::Scalar;
use crate::scalar;
use crate::triplets::Triplet;
use crate::triplets;

verus! {

/// What one cell adds to a sum, by its index and value; nothing where it is skipped.
pub type Term<V> = spec_fn(int, V) -> Option<V>;

pub open spec fn added<V: Scalar>(sum: V, term: Option<V>) -> V {
    match term {
        Some(value) => sum.sum(value),
        None => sum,
    }
}

/// The sum over the entries of one row or column, in the order of the list.
pub open spec fn line_fold<V: Scalar>(
    list: Seq<Triplet<V>>,
    line: int,
    by_column: bool,
    term: Term<V>,
) -> V
    decreases list.len(),
{
    if list.len() == 0 {
        V::zero_value()
    } else {
        let sum = line_fold(list.drop_last(), line, by_column, term);
        let last = list.last();
        if compressed::major(last, by_column) == line {
            added(sum, term(compressed::minor(last, by_column) as int, last.value))
        } else {
            sum
        }
    }
}

/// The sum over the first cells of a line, in ascending order, those that count as
/// zero left out.
pub open spec fn ascending_fold<V: Scalar>(
    exact: bool,
    cell: spec_fn(int) -> V,
    term: Term<V>,
    upto: nat,
) -> V
    decreases upto,
{
    if upto == 0 {
        V::zero_value()
    } else {
        let sum = ascending_fold(exact, cell, term, (upto - 1) as nat);
        let value = cell(upto - 1);
        if scalar::blank(exact, value) {
            sum
        } else {
            added(sum, term(upto - 1, value))
        }
    }
}

/// The list holds exactly the cells of the line before `upto` that do not count as
/// zero, besides entries of other lines.
pub open spec fn spells_line<V: Scalar>(
    exact: bool,
    list: Seq<Triplet<V>>,
    line: int,
    by_column: bool,
    cell: spec_fn(int) -> V,
    upto: nat,
) -> bool {
    &&& forall|i: int|
        0 <= i < list.len() && compressed::major(#[trigger] list[i], by_column) == line ==> {
            let at = compressed::minor(list[i], by_column) as int;
            at < upto && list[i].value == cell(at) && !scalar::blank(exact, list[i].value)
        }
    &&& forall|at: int|
        0 <= at < upto && !scalar::blank(exact, #[trigger] cell(at)) ==> exists|i: int|
            0 <= i < list.len() && compressed::major(#[trigger] list[i], by_column) == line
                && compressed::minor(list[i], by_column) == at
}

/// The sum over a line does not depend on how the entries are filed.
pub proof fn lemma_line_fold<V: Scalar>(
    exact: bool,
    list: Seq<Triplet<V>>,
    order: bool,
    line: int,
    by_column: bool,
    cell: spec_fn(int) -> V,
    term: Term<V>,
    upto: nat,
)
    requires
        triplets::strictly_ordered(list, order),
        spells_line(exact, list, line, by_column, cell, upto),
    ensures
        line_fold(list, line, by_column, term) == ascending_fold(exact, cell, term, upto),
    decreases list.len() + upto,
{
    if list.len() > 0 && compressed::major(list.last(), by_column) != line {
        let front = list.drop_last();
        assert(spells_line(exact, front, line, by_column, cell, upto)) by {
            assert forall|at: int|
                0 <= at < upto && !scalar::blank(exact, #[trigger] cell(at)) implies exists|i: int|
                0 <= i < front.len() && compressed::major(#[trigger] front[i], by_column) == line
                    && compressed::minor(front[i], by_column) == at by {
                let i = choose|i: int|
                    0 <= i < list.len() && compressed::major(#[trigger] list[i], by_column) == line
                        && compressed::minor(list[i], by_column) == at;
                assert(front[i] == list[i]);
            }
        }
        lemma_line_fold(exact, front, order, line, by_column, cell, term, upto);
    } else if upto == 0 {
        if list.len() > 0 {
            assert(compressed::major(list[list.len() - 1], by_column) == line);
        }
    } else if scalar::blank(exact, cell(upto - 1)) {
        let shorter = (upto - 1) as nat;
        assert(spells_line(exact, list, line, by_column, cell, shorter)) by {
            assert forall|i: int|
                0 <= i < list.len() && compressed::major(#[trigger] list[i], by_column)
                    == line implies ({
                let at = compressed::minor(list[i], by_column) as int;
                at < shorter && list[i].value == cell(at) && !scalar::blank(exact, list[i].value)
            }) by {
                let at = compressed::minor(list[i], by_column) as int;
                assert(at < upto && list[i].value == cell(at));
            }
        }
        lemma_line_fold(exact, list, order, line, by_column, cell, term, shorter);
    } else {
        let at = upto - 1;
        let i = choose|i: int|
            0 <= i < list.len() && compressed::major(#[trigger] list[i], by_column) == line
                && compressed::minor(list[i], by_column) == at;
        let last = list.len() - 1;
        assert(compressed::major(list[last], by_column) == line);
        assert(compressed::minor(list[last], by_column) < upto);
        if i < last {
            assert(triplets::comes_before(list[i], list[last], order));
        }
        assert(i == last);
        let front = list.drop_last();
        let shorter = (upto - 1) as nat;
        assert(spells_line(exact, front, line, by_column, cell, shorter)) by {
            assert forall|k: int|
                0 <= k < front.len() && compressed::major(#[trigger] front[k], by_column)
                    == line implies ({
                let m = compressed::minor(front[k], by_column) as int;
                m < shorter && front[k].value == cell(m) && !scalar::blank(exact, front[k].value)
            }) by {
                assert(front[k] == list[k]);
                assert(triplets::comes_before(list[k], list[last], order));
                assert(compressed::minor(list[k], by_column) < upto);
            }
            assert forall|m: int|
                0 <= m < shorter && !scalar::blank(exact, #[trigger] cell(m)) implies exists|k: int|
                0 <= k < front.len() && compressed::major(#[trigger] front[k], by_column) == line
                    && compressed::minor(front[k], by_column) == m by {
                let k = choose|k: int|
                    0 <= k < list.len() && compressed::major(#[trigger] list[k], by_column) == line
                        && compressed::minor(list[k], by_column) == m;
                assert(k != last);
                assert(front[k] == list[k]);
            }
        }
        lemma_line_fold(exact, front, order, line, by_column, cell, term, shorter);
        assert(list[last].value == cell(at));
    }
}

} // verus!
