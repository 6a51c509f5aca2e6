//! Layout of block-diagonal operators.

use vstd::prelude::*;
use crate::error::{QmbedError, Result};
pub use crate::block_ops::{block_diag_hamiltonian, BlockOps, DynamicBlockOps};

verus! {

/// The sum of the first `count` block dimensions.
pub open spec fn offset_of(shapes: Seq<(usize, usize)>, count: nat) -> nat
    decreases count,
{
    if count == 0 {
        0
    } else {
        offset_of(shapes, (count - 1) as nat) + shapes[count - 1].0 as nat
    }
}

/// Every block is square.
pub open spec fn all_square(shapes: Seq<(usize, usize)>) -> bool {
    forall|i: int| 0 <= i < shapes.len() ==> (#[trigger] shapes[i]).0 == shapes[i].1
}

/// The first block that is not square or whose end exceeds the machine integers is
/// not square.
pub open spec fn shape_fails_first(shapes: Seq<(usize, usize)>) -> bool {
    exists|k: int|
        0 <= k < shapes.len() && (#[trigger] shapes[k]).0 != shapes[k].1 && offset_of(
            shapes,
            k as nat,
        ) <= usize::MAX
}

/// The first row of every block, and the total dimension at the end.
pub fn block_offsets(shapes: &[(usize, usize)]) -> (result: Result<Vec<usize>>)
    ensures
        match result {
            Ok(offsets) => {
                &&& shapes@.len() > 0
                &&& all_square(shapes@)
                &&& offsets.len() == shapes@.len() + 1
                &&& forall|k: int|
                    0 <= k < offsets.len() ==> #[trigger] offsets[k] == offset_of(
                        shapes@,
                        k as nat,
                    )
            },
            Err(QmbedError::DimensionMismatch(_)) => shape_fails_first(shapes@),
            Err(QmbedError::UnsupportedBackend(_)) => offset_of(shapes@, shapes@.len())
                > usize::MAX && !shape_fails_first(shapes@),
            Err(QmbedError::InvalidOptions(_)) => shapes@.len() == 0,
            Err(_) => false,
        },
{
    let mut offsets: Vec<usize> = Vec::new();
    let mut last: usize = 0;
    offsets.push(last);
    let mut index: usize = 0;
    while index < shapes.len()
        invariant
            index <= shapes@.len(),
            offsets.len() == index + 1,
            last == offset_of(shapes@, index as nat),
            forall|i: int| 0 <= i < index ==> (#[trigger] shapes@[i]).0 == shapes@[i].1,
            forall|k: int|
                0 <= k < offsets.len() ==> #[trigger] offsets[k] == offset_of(shapes@, k as nat),
        decreases shapes@.len() - index,
    {
        let shape: (usize, usize) = shapes[index];
        if shape.0 != shape.1 {
            assert(shapes@[index as int].0 != shapes@[index as int].1);
            return Err(
                QmbedError::DimensionMismatch(
                    "block-diagonal operators require square blocks".to_string(),
                ),
            );
        }
        match last.checked_add(shape.0) {
            Some(next) => {
                last = next;
                offsets.push(next);
            },
            None => {
                proof {
                    let reached = (index + 1) as nat;
                    lemma_offsets_grow(shapes@, reached, shapes@.len());
                    assert forall|k: int|
                        0 <= k < shapes@.len() && (#[trigger] shapes@[k]).0 != shapes@[k].1 implies
                        offset_of(shapes@, k as nat) > usize::MAX by {
                        if k >= reached {
                            lemma_offsets_grow(shapes@, reached, k as nat);
                        }
                    }
                }
                return Err(QmbedError::UnsupportedBackend("block dimension overflow".to_string()));
            },
        }
        index = index + 1;
    }
    if shapes.len() == 0 {
        return Err(
            QmbedError::InvalidOptions("at least one operator block is required".to_string()),
        );
    }
    Ok(offsets)
}

pub proof fn lemma_offsets_grow(shapes: Seq<(usize, usize)>, m: nat, n: nat)
    requires
        m <= n,
    ensures
        offset_of(shapes, m) <= offset_of(shapes, n),
    decreases n,
{
    if m < n {
        lemma_offsets_grow(shapes, m, (n - 1) as nat);
    }
}

/// Entries of different blocks never meet: the rows of one block end before those of
/// a later block begin.
pub proof fn blocks_are_disjoint(shapes: Seq<(usize, usize)>, i: nat, j: nat, row: nat)
    requires
        i < j <= shapes.len(),
        row < shapes[i as int].0,
    ensures
        offset_of(shapes, i) + row < offset_of(shapes, j),
{
    lemma_offsets_grow(shapes, i + 1, j);
}

/// The layout of a growing block-diagonal operator.
#[derive(Debug)]
pub struct BlockLayout {
    offsets: Vec<usize>,
}

impl BlockLayout {
    pub closed spec fn view(&self) -> Seq<usize> {
        self.offsets@
    }

    /// The offsets start at zero and never fall.
    pub open spec fn wf(&self) -> bool {
        &&& self@.len() > 0
        &&& self@[0] == 0
        &&& forall|i: int, j: int| 0 <= i <= j < self@.len() ==> self@[i] <= self@[j]
    }

    /// The layout of the given blocks.
    pub fn new(shapes: &[(usize, usize)]) -> (result: Result<Self>)
        ensures
            match result {
                Ok(layout) => {
                    &&& layout.wf()
                    &&& shapes@.len() > 0
                    &&& all_square(shapes@)
                    &&& layout@.len() == shapes@.len() + 1
                    &&& forall|k: int|
                        0 <= k < layout@.len() ==> #[trigger] layout@[k] == offset_of(
                            shapes@,
                            k as nat,
                        )
                },
                Err(QmbedError::DimensionMismatch(_)) => shape_fails_first(shapes@),
                Err(QmbedError::UnsupportedBackend(_)) => offset_of(shapes@, shapes@.len())
                    > usize::MAX && !shape_fails_first(shapes@),
                Err(QmbedError::InvalidOptions(_)) => shapes@.len() == 0,
                Err(_) => false,
            },
    {
        match block_offsets(shapes) {
            Ok(offsets) => {
                proof {
                    assert forall|i: int, j: int| 0 <= i <= j < offsets@.len() implies offsets@[i]
                        <= offsets@[j] by {
                        lemma_offsets_grow(shapes@, i as nat, j as nat);
                    }
                }
                Ok(BlockLayout { offsets })
            },
            Err(error) => Err(error),
        }
    }

    /// The number of blocks.
    pub fn blocks(&self) -> (count: usize)
        requires
            self.wf(),
        ensures
            count == self@.len() - 1,
    {
        self.offsets.len() - 1
    }

    /// The total dimension.
    pub fn dimension(&self) -> (dimension: usize)
        requires
            self.wf(),
        ensures
            dimension == self@.last(),
    {
        self.offsets[self.offsets.len() - 1]
    }

    /// The first row of a block, or the end of the last one.
    pub fn at(&self, index: usize) -> (offset: usize)
        requires
            index < self@.len(),
        ensures
            offset == self@[index as int],
    {
        self.offsets[index]
    }

    /// Appends a block behind the others.
    pub fn push(&mut self, shape: (usize, usize)) -> (result: Result<()>)
        requires
            old(self).wf(),
        ensures
            final(self).wf(),
            match result {
                Ok(_) => shape.0 == shape.1 && old(self)@.last() + shape.0 <= usize::MAX
                    && final(self)@ == old(self)@.push((old(self)@.last() + shape.0) as usize),
                Err(QmbedError::DimensionMismatch(_)) => shape.0 != shape.1 && final(self)@
                    == old(self)@,
                Err(QmbedError::UnsupportedBackend(_)) => shape.0 == shape.1 && old(self)@.last()
                    + shape.0 > usize::MAX && final(self)@ == old(self)@,
                Err(_) => false,
            },
    {
        if shape.0 != shape.1 {
            return Err(
                QmbedError::DimensionMismatch(
                    "block-diagonal operators require square blocks".to_string(),
                ),
            );
        }
        match self.offsets[self.offsets.len() - 1].checked_add(shape.0) {
            Some(next) => {
                self.offsets.push(next);
                Ok(())
            },
            None => Err(QmbedError::UnsupportedBackend("block dimension overflow".to_string())),
        }
    }
}

} // verus!
