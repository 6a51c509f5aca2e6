//! Which eigenvalues are selected, where iterations start, and how far they go.

use vstd::prelude::*;
use crate::error::{QmbedError, Result};
use crate::scalar::Scalar;

verus! {

/// The first index comes before the second: by ascending or descending key, and by
/// ascending index among equal keys.
pub open spec fn ranks_before(keys: Seq<i64>, descending: bool, first: usize, second: usize) -> bool {
    let a = keys[first as int];
    let b = keys[second as int];
    if a == b {
        first < second
    } else if descending {
        a > b
    } else {
        a < b
    }
}

/// All indices below the number of keys, each once, in the order of their keys.
pub open spec fn ranking(keys: Seq<i64>, descending: bool, order: Seq<usize>) -> bool {
    &&& order.len() == keys.len()
    &&& forall|i: int| 0 <= i < order.len() ==> #[trigger] order[i] < keys.len()
    &&& forall|i: int, j: int|
        0 <= i < j < order.len() ==> ranks_before(
            keys,
            descending,
            #[trigger] order[i],
            #[trigger] order[j],
        )
}

/// There is one ranking.
pub proof fn ranking_is_unique(
    keys: Seq<i64>,
    descending: bool,
    first: Seq<usize>,
    second: Seq<usize>,
)
    requires
        ranking(keys, descending, first),
        ranking(keys, descending, second),
        keys.len() <= usize::MAX,
    ensures
        first == second,
{
    lemma_same_prefix(keys, descending, first, second, first.len());
    assert(first.take(first.len() as int) =~= first);
    assert(second.take(first.len() as int) =~= second);
}

pub proof fn lemma_ranking_complete(keys: Seq<i64>, descending: bool, order: Seq<usize>, index: usize)
    requires
        ranking(keys, descending, order),
        index < keys.len(),
    ensures
        order.contains(index),
{
    assert(crate::interop::is_permutation(order)) by {
        assert forall|i: int, j: int|
            0 <= i < order.len() && 0 <= j < order.len() && i != j implies order[i]
            != order[j] by {
            if i < j {
                assert(ranks_before(keys, descending, order[i], order[j]));
            } else {
                assert(ranks_before(keys, descending, order[j], order[i]));
            }
        }
    }
    crate::lattice_map::lemma_reaches_all(order, index);
}

proof fn lemma_same_prefix(
    keys: Seq<i64>,
    descending: bool,
    first: Seq<usize>,
    second: Seq<usize>,
    upto: nat,
)
    requires
        ranking(keys, descending, first),
        ranking(keys, descending, second),
        upto <= first.len(),
    ensures
        first.take(upto as int) == second.take(upto as int),
    decreases upto,
{
    if upto > 0 {
        lemma_same_prefix(keys, descending, first, second, (upto - 1) as nat);
        let k = upto - 1;
        let a = first[k];
        let b = second[k];
        if a != b {
            lemma_ranking_complete(keys, descending, second, a);
            lemma_ranking_complete(keys, descending, first, b);
            let i = second.index_of(a);
            let j = first.index_of(b);
            assert(second[i] == a);
            assert(first[j] == b);
            if i < k {
                assert(first.take(k)[i] == second.take(k)[i]);
                assert(first[i] == a);
                assert(ranks_before(keys, descending, first[i], first[k]));
            } else if j < k {
                assert(first.take(k)[j] == second.take(k)[j]);
                assert(second[j] == b);
                assert(ranks_before(keys, descending, second[j], second[k]));
            } else {
                assert(ranks_before(keys, descending, first[k], first[j]));
                assert(ranks_before(keys, descending, second[k], second[i]));
            }
        }
        assert(first.take(upto as int) =~= first.take(k).push(a));
        assert(second.take(upto as int) =~= second.take(k).push(b));
    }
}

fn precedes(keys: &[i64], descending: bool, first: usize, second: usize) -> (before: bool)
    requires
        first < keys@.len(),
        second < keys@.len(),
    ensures
        before == ranks_before(keys@, descending, first, second),
{
    let a: i64 = keys[first];
    let b: i64 = keys[second];
    if a == b {
        first < second
    } else if descending {
        a > b
    } else {
        a < b
    }
}

/// All indices in the order of their keys.
pub fn rank_indices(keys: &[i64], descending: bool) -> (order: Vec<usize>)
    ensures
        ranking(keys@, descending, order@),
{
    let mut order: Vec<usize> = Vec::new();
    let mut index: usize = 0;
    while index < keys.len()
        invariant
            index <= keys@.len(),
            order@.len() == index,
            forall|i: int| 0 <= i < order@.len() ==> #[trigger] order@[i] < index,
            forall|i: int, j: int|
                0 <= i < j < order@.len() ==> ranks_before(
                    keys@,
                    descending,
                    #[trigger] order@[i],
                    #[trigger] order@[j],
                ),
        decreases keys@.len() - index,
    {
        let mut place: usize = order.len();
        let mut more: bool = place > 0;
        while more
            invariant
                index < keys@.len(),
                place <= order@.len(),
                order@.len() == index,
                forall|i: int| 0 <= i < order@.len() ==> #[trigger] order@[i] < index,
                forall|i: int, j: int|
                    0 <= i < j < order@.len() ==> ranks_before(
                        keys@,
                        descending,
                        #[trigger] order@[i],
                        #[trigger] order@[j],
                    ),
                forall|i: int|
                    place <= i < order@.len() ==> ranks_before(
                        keys@,
                        descending,
                        index,
                        #[trigger] order@[i],
                    ),
                more ==> place > 0,
                !more ==> place == 0 || ranks_before(
                    keys@,
                    descending,
                    order@[place - 1],
                    index,
                ),
            decreases place, (if more { 1int } else { 0int }),
        {
            if precedes(keys, descending, index, order[place - 1]) {
                place = place - 1;
                more = place > 0;
            } else {
                assert(order@[place - 1] < index);
                more = false;
            }
        }
        let ghost before = order@;
        order.insert(place, index);
        proof {
            assert forall|i: int, j: int| 0 <= i < j < order@.len() implies ranks_before(
                keys@,
                descending,
                #[trigger] order@[i],
                #[trigger] order@[j],
            ) by {
                if j < place {
                    assert(order@[i] == before[i] && order@[j] == before[j]);
                } else if j == place {
                    assert(order@[i] == before[i]);
                    if i < place - 1 {
                        assert(ranks_before(keys@, descending, before[i], before[place - 1]));
                    }
                } else if i < place {
                    assert(order@[i] == before[i] && order@[j] == before[j - 1]);
                } else if i == place {
                    assert(order@[j] == before[j - 1]);
                } else {
                    assert(order@[i] == before[i - 1] && order@[j] == before[j - 1]);
                }
            }
            assert forall|i: int| 0 <= i < order@.len() implies #[trigger] order@[i]
                < index + 1 by {
                if i < place {
                    assert(order@[i] == before[i]);
                } else if i > place {
                    assert(order@[i] == before[i - 1]);
                }
            }
        }
        index = index + 1;
    }
    order
}

/// The first indices of a ranking.
pub open spec fn leading(keys: Seq<i64>, descending: bool, count: nat, chosen: Seq<usize>) -> bool {
    exists|order: Seq<usize>| #[trigger]
        ranking(keys, descending, order) && chosen == order.take(
            if count <= order.len() {
                count as int
            } else {
                order.len() as int
            },
        )
}

/// The indices of the smallest or the largest keys.
pub fn select_indices(keys: &[i64], descending: bool, count: usize) -> (chosen: Vec<usize>)
    ensures
        leading(keys@, descending, count as nat, chosen@),
{
    let order: Vec<usize> = rank_indices(keys, descending);
    let total: usize = if count <= order.len() {
        count
    } else {
        order.len()
    };
    let mut chosen: Vec<usize> = Vec::new();
    while chosen.len() < total
        invariant
            total <= order@.len(),
            chosen@.len() <= total,
            chosen@ =~= order@.take(chosen@.len() as int),
        decreases total - chosen@.len(),
    {
        chosen.push(order[chosen.len()]);
    }
    assert(ranking(keys@, descending, order@));
    chosen
}

/// The indices of the keys at both ends of a ranking, half of them below, in ascending
/// order; nothing is taken twice as long as there are enough keys.
pub open spec fn both_ends(keys: Seq<i64>, count: int, chosen: Seq<usize>) -> bool {
    exists|order: Seq<usize>| #[trigger]
        ranking(keys, false, order) && chosen == order.take(count / 2) + order.subrange(
            order.len() - (count - count / 2),
            order.len() as int,
        )
}

/// The indices of the keys at both ends.
pub fn select_both_ends(keys: &[i64], count: usize) -> (chosen: Vec<usize>)
    requires
        count <= keys@.len(),
    ensures
        both_ends(keys@, count as int, chosen@),
{
    let order: Vec<usize> = rank_indices(keys, false);
    let lower: usize = count / 2;
    let upper: usize = count - lower;
    let mut chosen: Vec<usize> = Vec::new();
    while chosen.len() < lower
        invariant
            lower <= order@.len(),
            chosen@.len() <= lower,
            chosen@ =~= order@.take(chosen@.len() as int),
        decreases lower - chosen@.len(),
    {
        chosen.push(order[chosen.len()]);
    }
    let start: usize = order.len() - upper;
    let mut index: usize = start;
    while index < order.len()
        invariant
            start <= index <= order@.len(),
            lower <= order@.len(),
            chosen@ =~= order@.take(lower as int) + order@.subrange(start as int, index as int),
        decreases order@.len() - index,
    {
        chosen.push(order[index]);
        index = index + 1;
    }
    assert(ranking(keys@, false, order@));
    chosen
}

/// One step of the generator of start vectors.
pub open spec fn stepped(state: u64) -> u64 {
    ((state as int * 6_364_136_223_846_793_005 + 1_442_695_040_888_963_407)
        % 0x1_0000_0000_0000_0000) as u64
}

/// The state of the generator after a number of steps.
pub open spec fn generator_state(seed: u64, steps: nat) -> u64
    decreases steps,
{
    if steps == 0 {
        seed | 1
    } else {
        stepped(generator_state(seed, (steps - 1) as nat))
    }
}

fn step_generator(state: u64) -> (next: u64)
    ensures
        next == stepped(state),
{
    let factor: u128 = 6_364_136_223_846_793_005;
    let shift: u128 = 1_442_695_040_888_963_407;
    let wide: u128 = state as u128;
    proof {
        let s = state as int;
        assert(0 <= s * 6_364_136_223_846_793_005 <= 0xffff_ffff_ffff_ffff
            * 6_364_136_223_846_793_005) by (nonlinear_arith)
            requires
                0 <= s <= 0xffff_ffff_ffff_ffff,
        ;
    }
    let next: u128 = (wide * factor + shift) % 0x1_0000_0000_0000_0000;
    next as u64
}

/// The leading bits of the first states of the generator of start vectors.
pub fn start_mantissas(dimension: usize, seed: u64) -> (mantissas: Vec<u64>)
    ensures
        mantissas@.len() == dimension,
        forall|i: int|
            0 <= i < dimension ==> #[trigger] mantissas@[i] == generator_state(seed, (i + 1) as nat)
                >> 11u64 && mantissas@[i] < 0x20_0000_0000_0000,
{
    let mut state: u64 = seed | 1;
    let mut mantissas: Vec<u64> = Vec::new();
    while mantissas.len() < dimension
        invariant
            mantissas@.len() <= dimension,
            state == generator_state(seed, mantissas@.len()),
            forall|i: int|
                0 <= i < mantissas@.len() ==> #[trigger] mantissas@[i] == generator_state(
                    seed,
                    (i + 1) as nat,
                ) >> 11u64 && mantissas@[i] < 0x20_0000_0000_0000,
        decreases dimension - mantissas@.len(),
    {
        state = step_generator(state);
        assert(state >> 11u64 < 0x20_0000_0000_0000) by (bit_vector);
        mantissas.push(state >> 11u64);
    }
    mantissas
}

/// A component of a linear combination of vectors, after the first vectors.
pub open spec fn blended_component<V: Scalar>(
    basis: Seq<Vec<V>>,
    coefficients: Seq<V>,
    at: int,
    upto: nat,
) -> V
    decreases upto,
{
    if upto == 0 {
        V::zero_value()
    } else {
        blended_component(basis, coefficients, at, (upto - 1) as nat).sum(
            coefficients[upto - 1].product(basis[upto - 1]@[at]),
        )
    }
}

/// There are as many vectors as coefficients, at least one, and all of one length.
pub open spec fn combinable<V: Scalar>(basis: Seq<Vec<V>>, coefficients: Seq<V>) -> bool {
    &&& basis.len() == coefficients.len()
    &&& basis.len() > 0
    &&& forall|i: int| 0 <= i < basis.len() ==> (#[trigger] basis[i])@.len() == basis[0]@.len()
}

/// A linear combination of vectors.
pub fn linear_combination_qt<V: Scalar>(basis: &[Vec<V>], coefficients: &[V]) -> (result: Result<
    Vec<V>,
>)
    ensures
        match result {
            Ok(output) => {
                &&& combinable(basis@, coefficients@)
                &&& output@.len() == basis@[0]@.len()
                &&& forall|at: int|
                    0 <= at < output@.len() ==> #[trigger] output@[at] == blended_component(
                        basis@,
                        coefficients@,
                        at,
                        basis@.len(),
                    )
            },
            Err(error) => error is DimensionMismatch && !combinable(basis@, coefficients@),
        },
{
    if basis.len() != coefficients.len() || basis.len() == 0 {
        return Err(
            QmbedError::DimensionMismatch(
                "basis and coefficient counts must be equal and nonzero".to_string(),
            ),
        );
    }
    let dimension: usize = basis[0].len();
    let mut index: usize = 0;
    while index < basis.len()
        invariant
            basis@.len() > 0,
            dimension == basis@[0]@.len(),
            index <= basis@.len(),
            forall|i: int| 0 <= i < index ==> (#[trigger] basis@[i])@.len() == dimension,
        decreases basis@.len() - index,
    {
        if basis[index].len() != dimension {
            assert(basis@[index as int]@.len() != basis@[0]@.len());
            return Err(
                QmbedError::DimensionMismatch(
                    "linear-combination basis vectors must have equal lengths".to_string(),
                ),
            );
        }
        index = index + 1;
    }
    let mut output: Vec<V> = crate::operator::zeros(dimension);
    index = 0;
    while index < basis.len()
        invariant
            basis@.len() == coefficients@.len(),
            forall|i: int| 0 <= i < basis@.len() ==> (#[trigger] basis@[i])@.len() == dimension,
            index <= basis@.len(),
            output@.len() == dimension,
            forall|at: int|
                0 <= at < dimension ==> #[trigger] output@[at] == blended_component(
                    basis@,
                    coefficients@,
                    at,
                    index as nat,
                ),
        decreases basis@.len() - index,
    {
        let ghost before = output@;
        assert(basis@[index as int]@.len() == dimension);
        let mut at: usize = 0;
        while at < dimension
            invariant
                index < basis@.len(),
                basis@.len() == coefficients@.len(),
                basis@[index as int]@.len() == dimension,
                at <= dimension,
                output@.len() == dimension,
                before.len() == dimension,
                forall|i: int|
                    0 <= i < at ==> #[trigger] output@[i] == before[i].sum(
                        coefficients@[index as int].product(basis@[index as int]@[i]),
                    ),
                forall|i: int| at <= i < dimension ==> #[trigger] output@[i] == before[i],
            decreases dimension - at,
        {
            let value: V = output[at].plus(coefficients[index].times(basis[index][at]));
            output.set(at, value);
            at = at + 1;
        }
        proof {
            assert forall|i: int| 0 <= i < dimension implies #[trigger] output@[i]
                == blended_component(basis@, coefficients@, i, (index + 1) as nat) by {
                assert(before[i] == blended_component(basis@, coefficients@, i, index as nat));
            }
        }
        index = index + 1;
    }
    Ok(output)
}

/// Options of the dense eigensolver.
#[derive(Clone, Copy, Debug, PartialEq, Eq, Structural)]
pub struct EighOptions {
    pub return_eigenvectors: bool,
}

impl Default for EighOptions {
    fn default() -> (options: Self)
        ensures
            options.return_eigenvectors,
    {
        EighOptions { return_eigenvectors: true }
    }
}

/// The largest matrices that are diagonalized as a whole.
pub const DENSE_CUTOFF: usize = 128;

/// The matrix is diagonalized as a whole rather than by iteration.
pub fn solved_densely(dimension: usize) -> (densely: bool)
    ensures
        densely == (dimension <= DENSE_CUTOFF),
{
    dimension <= DENSE_CUTOFF
}

/// The counts that control an iterative eigensolver.
#[derive(Clone, Copy, Debug, PartialEq, Eq, Structural)]
pub struct EigshCounts {
    pub eigenpairs: usize,
    pub krylov_dimension: Option<usize>,
    pub max_iterations: usize,
}

impl EigshCounts {
    /// Fewer eigenpairs than the dimension are asked for, at least one, and the subspace
    /// can hold them.
    pub open spec fn admissible(self, dimension: usize) -> bool {
        &&& 0 < self.eigenpairs < dimension
        &&& self.max_iterations > 0
        &&& match self.krylov_dimension {
            Some(size) => self.eigenpairs < size <= dimension,
            None => true,
        }
    }

    /// Checks the options of an eigensolver: the counts, and what the caller found of the
    /// tolerance and of the shift.
    pub fn validate(&self, dimension: usize, tolerance_usable: bool, shift_finite: bool) -> (result:
        Result<()>)
        ensures
            match result {
                Ok(()) => self.admissible(dimension) && tolerance_usable && shift_finite,
                Err(error) => error is InvalidOptions && !(self.admissible(dimension)
                    && tolerance_usable && shift_finite),
            },
    {
        if self.eigenpairs == 0 || self.eigenpairs >= dimension {
            return Err(
                QmbedError::InvalidOptions(
                    "eigenpairs must be positive and smaller than the operator dimension".to_string(),
                ),
            );
        }
        if !tolerance_usable || self.max_iterations == 0 {
            return Err(
                QmbedError::InvalidOptions(
                    "tolerance and max_iterations must be positive".to_string(),
                ),
            );
        }
        if let Some(size) = self.krylov_dimension {
            if size <= self.eigenpairs || size > dimension {
                return Err(
                    QmbedError::InvalidOptions(
                        "krylov_dimension must exceed eigenpairs and not exceed dimension".to_string(),
                    ),
                );
            }
        }
        if !shift_finite {
            return Err(QmbedError::InvalidOptions("shift must be finite".to_string()));
        }
        Ok(())
    }

    /// The dimension of the subspace that is asked for, by default four vectors for each
    /// eigenpair and some more.
    pub open spec fn requested(self) -> int {
        match self.krylov_dimension {
            Some(size) => size as int,
            None => if 4 * self.eigenpairs + 24 < 48 {
                48
            } else {
                4 * self.eigenpairs + 24
            },
        }
    }

    /// The dimension of the subspace: the one asked for, within the number of iterations
    /// and the dimension of the space.
    pub open spec fn effective(self, dimension: usize) -> int {
        let bound = if self.max_iterations < dimension {
            self.max_iterations as int
        } else {
            dimension as int
        };
        if self.requested() < bound {
            self.requested()
        } else {
            bound
        }
    }

    /// The dimension of the subspace, which has to exceed the number of eigenpairs.
    pub fn subspace_dimension(&self, dimension: usize) -> (result: Result<usize>)
        ensures
            match result {
                Ok(size) => size == self.effective(dimension) && size > self.eigenpairs,
                Err(error) => error is InvalidOptions && self.effective(dimension)
                    <= self.eigenpairs,
            },
    {
        let bound: usize = if self.max_iterations < dimension {
            self.max_iterations
        } else {
            dimension
        };
        let requested: u128 = match self.krylov_dimension {
            Some(size) => size as u128,
            None => {
                let wanted: u128 = 4 * (self.eigenpairs as u128) + 24;
                if wanted < 48 {
                    48
                } else {
                    wanted
                }
            },
        };
        let size: usize = if requested < bound as u128 {
            requested as usize
        } else {
            bound
        };
        if size <= self.eigenpairs {
            return Err(
                QmbedError::InvalidOptions(
                    "the effective Krylov dimension must exceed eigenpairs".to_string(),
                ),
            );
        }
        Ok(size)
    }
}

} // verus!
