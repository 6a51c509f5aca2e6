//! Square matrices of exact numbers: products, traces, and how they combine.

use vstd::prelude::*;
use crate::composition;
use crate::exactness;
use crate::local::LocalFactor;
use crate::scalar::{Amplitude, Scalar};

verus! {

pub open spec fn cancels<V: Scalar>(a: V) -> bool {
    a.sum(a.product(V::minus_one_value())) == V::zero_value()
}

pub open spec fn mirrors_sum<V: Scalar>(a: V, b: V) -> bool {
    a.sum(b).mirror() == a.mirror().sum(b.mirror())
}

pub open spec fn mirrors_product<V: Scalar>(a: V, b: V) -> bool {
    a.product(b).mirror() == a.mirror().product(b.mirror())
}

/// The numbers are exact, with one and minus one, and conjugation keeps sums and products.
pub open spec fn faithful<V: Scalar>() -> bool {
    &&& exactness::exact::<V>()
    &&& forall|a: V| #[trigger] V::one_value().product(a) == a
    &&& forall|a: V| #[trigger] cancels(a)
    &&& forall|a: V, b: V| #[trigger] mirrors_sum(a, b)
    &&& forall|a: V, b: V| #[trigger] mirrors_product(a, b)
}

/// A power of the imaginary unit.
pub open spec fn unit<V: Amplitude>(quarter_turns: u8) -> V {
    V::of_local(LocalFactor { quarter_turns, numerator: 1, halved: false, radicand: 1 })
}

pub open spec fn half<V: Amplitude>() -> V {
    V::of_local(LocalFactor { quarter_turns: 0, numerator: 1, halved: true, radicand: 1 })
}

/// The numbers are exact and hold an imaginary unit and a half.
pub open spec fn complete<V: Amplitude>() -> bool {
    &&& faithful::<V>()
    &&& unit::<V>(1).product(unit::<V>(3)) == V::one_value()
    &&& unit::<V>(3).mirror() == unit::<V>(1)
    &&& unit::<V>(1).product(V::minus_one_value()) == unit::<V>(3)
    &&& half::<V>().sum(half::<V>()) == V::one_value()
    &&& half::<V>().mirror() == half::<V>()
    &&& V::minus_one_value().mirror() == V::minus_one_value()
}

/// The products that add up to a cell of a matrix product.
pub open spec fn line<V: Scalar>(
    left: spec_fn(int, int) -> V,
    right: spec_fn(int, int) -> V,
    row: int,
    column: int,
) -> spec_fn(int) -> V {
    |middle: int| left(row, middle).product(right(middle, column))
}

/// A matrix product.
pub open spec fn times<V: Scalar>(
    left: spec_fn(int, int) -> V,
    right: spec_fn(int, int) -> V,
    size: nat,
) -> spec_fn(int, int) -> V {
    |row: int, column: int| exactness::total(line(left, right, row, column), size)
}

/// The adjoint of a matrix.
pub open spec fn adjoint<V: Scalar>(matrix: spec_fn(int, int) -> V) -> spec_fn(int, int) -> V {
    |row: int, column: int| matrix(column, row).mirror()
}

/// The sum of the diagonal.
pub open spec fn trace<V: Scalar>(matrix: spec_fn(int, int) -> V, size: nat) -> V {
    exactness::total(|row: int| matrix(row, row), size)
}

/// The matrices agree in all cells.
pub open spec fn alike<V>(
    first: spec_fn(int, int) -> V,
    second: spec_fn(int, int) -> V,
    size: nat,
) -> bool {
    forall|row: int, column: int|
        0 <= row < size && 0 <= column < size ==> #[trigger] first(row, column) == second(
            row,
            column,
        )
}

/// `(a - b) + b` is `a`.
pub proof fn lemma_cancel<V: Scalar>(a: V, b: V)
    requires
        faithful::<V>(),
    ensures
        a.sum(b.product(V::minus_one_value())).sum(b) == a,
        a.sum(b).sum(b.product(V::minus_one_value())) == a,
        a.sum(V::zero_value()) == a,
{
    let n = b.product(V::minus_one_value());
    assert(cancels(b));
    assert(exactness::commutes(n, b));
    assert(exactness::regroups(a, n, b));
    assert(exactness::regroups(a, b, n));
    assert(exactness::commutes(a, V::zero_value()));
    assert(V::zero_value().sum(a) == a);
}

/// Four numbers can be added in pairs.
pub proof fn lemma_pairs<V: Scalar>(a: V, b: V, c: V, d: V)
    requires
        exactness::exact::<V>(),
    ensures
        a.sum(b).sum(c.sum(d)) == a.sum(c).sum(b.sum(d)),
{
    assert(exactness::regroups(a, b, c.sum(d)));
    assert(exactness::regroups(b, c, d));
    assert(exactness::commutes(b, c));
    assert(exactness::regroups(c, b, d));
    assert(exactness::regroups(a, c, b.sum(d)));
}

/// Halving twice gives the number.
pub proof fn lemma_halves<V: Amplitude>(a: V)
    requires
        complete::<V>(),
    ensures
        half::<V>().product(a).sum(half::<V>().product(a)) == a,
        half::<V>().product(a.sum(a)) == a,
{
    let h = half::<V>();
    assert(exactness::distributes(h, h, a));
    assert(V::one_value().product(a) == a);
    assert(exactness::factors_commute(h, a.sum(a)));
    assert(exactness::distributes(a, a, h));
    assert(exactness::factors_commute(h, a));
}

pub proof fn lemma_times_alike<V: Scalar>(
    left: spec_fn(int, int) -> V,
    right: spec_fn(int, int) -> V,
    other_left: spec_fn(int, int) -> V,
    other_right: spec_fn(int, int) -> V,
    size: nat,
)
    requires
        alike(left, other_left, size),
        alike(right, other_right, size),
    ensures
        alike(times(left, right, size), times(other_left, other_right, size), size),
{
    let one = times(left, right, size);
    let two = times(other_left, other_right, size);
    assert forall|row: int, column: int| 0 <= row < size && 0 <= column < size implies
        #[trigger] one(row, column) == two(row, column) by {
        let first = line(left, right, row, column);
        let second = line(other_left, other_right, row, column);
        assert forall|m: int| 0 <= m < size implies #[trigger] first(m) == second(m) by {
            assert(left(row, m) == other_left(row, m));
            assert(right(m, column) == other_right(m, column));
        }
        exactness::lemma_total_same(first, second, size);
    }
}

/// Products can be taken in either order of brackets.
pub proof fn lemma_times_regroup<V: Scalar>(
    a: spec_fn(int, int) -> V,
    b: spec_fn(int, int) -> V,
    c: spec_fn(int, int) -> V,
    size: nat,
    row: int,
    column: int,
)
    requires
        exactness::exact::<V>(),
    ensures
        times(times(a, b, size), c, size)(row, column) == times(a, times(b, c, size), size)(
            row,
            column,
        ),
{
    let value = |k: int, m: int| a(row, k).product(b(k, m)).product(c(m, column));
    let by_k = |k: int| exactness::total(|m: int| value(k, m), size);
    let by_m = |m: int| exactness::total(|k: int| value(k, m), size);
    let first = line(times(a, b, size), c, row, column);
    let second = line(a, times(b, c, size), row, column);
    assert forall|m: int| 0 <= m < size implies #[trigger] first(m) == by_m(m) by {
        let inner = line(a, b, row, m);
        composition::lemma_scaled(inner, c(m, column), size);
        let scaled = |k: int| inner(k).product(c(m, column));
        let plain = |k: int| value(k, m);
        assert forall|k: int| 0 <= k < size implies #[trigger] scaled(k) == plain(k) by {}
        exactness::lemma_total_same(scaled, plain, size);
    }
    exactness::lemma_total_same(first, by_m, size);
    composition::lemma_exchanged(value, size, size);
    assert forall|k: int| 0 <= k < size implies #[trigger] second(k) == by_k(k) by {
        let inner = line(b, c, k, column);
        let factor = a(row, k);
        composition::lemma_scaled(inner, factor, size);
        let scaled = |m: int| inner(m).product(factor);
        let plain = |m: int| value(k, m);
        assert forall|m: int| 0 <= m < size implies #[trigger] scaled(m) == plain(m) by {
            assert(exactness::factors_commute(inner(m), factor));
            assert(exactness::factors_regroup(factor, b(k, m), c(m, column)));
        }
        exactness::lemma_total_same(scaled, plain, size);
        assert(exactness::factors_commute(exactness::total(inner, size), factor));
    }
    exactness::lemma_total_same(second, by_k, size);
}

/// The trace of a product does not depend on the order of the factors.
pub proof fn lemma_trace_cyclic<V: Scalar>(
    a: spec_fn(int, int) -> V,
    b: spec_fn(int, int) -> V,
    size: nat,
)
    requires
        exactness::exact::<V>(),
    ensures
        trace(times(a, b, size), size) == trace(times(b, a, size), size),
{
    let value = |r: int, m: int| a(r, m).product(b(m, r));
    composition::lemma_exchanged(value, size, size);
    let one = |row: int| times(a, b, size)(row, row);
    let two = |row: int| times(b, a, size)(row, row);
    let by_r = |r: int| exactness::total(|m: int| value(r, m), size);
    let by_m = |m: int| exactness::total(|r: int| value(r, m), size);
    assert forall|r: int| 0 <= r < size implies #[trigger] one(r) == by_r(r) by {
        let inner = |m: int| value(r, m);
        exactness::lemma_total_same(line(a, b, r, r), inner, size);
    }
    exactness::lemma_total_same(one, by_r, size);
    assert forall|m: int| 0 <= m < size implies #[trigger] two(m) == by_m(m) by {
        let inner = |r: int| value(r, m);
        let plain = line(b, a, m, m);
        assert forall|r: int| 0 <= r < size implies #[trigger] plain(r) == inner(r) by {
            assert(exactness::factors_commute(b(m, r), a(r, m)));
        }
        exactness::lemma_total_same(plain, inner, size);
    }
    exactness::lemma_total_same(two, by_m, size);
}

} // verus!
