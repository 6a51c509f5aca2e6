//! Direct sums of square maps.

use vstd::prelude::*;
use crate::algebra::Change;
use crate::algebra;
use crate::block::BlockLayout;
use crate::block;
use crate::columns;
use crate::error::{QmbedError, Result};
use crate::linear::LinearOperator;
use crate::operator::{MatrixFormat, Operator};
use crate::operator;
use crate::scalar::Scalar;
use crate::timed::{Moment, TimeDependentOperator};
use crate::triplets::Triplet;
use crate::triplets;

verus! {

/// A direct sum of blocks.
pub struct BlockOps<O> {
    blocks: Vec<O>,
    layout: BlockLayout,
    size: usize,
}

/// A direct sum of blocks that depend on time.
pub struct DynamicBlockOps<O> {
    blocks: Vec<O>,
    layout: BlockLayout,
    size: usize,
}

/// The images of the pieces of a vector, put together; nothing where one is missing.
pub open spec fn gathered<V>(pieces: spec_fn(int) -> Option<Seq<V>>, upto: nat) -> Option<Seq<V>>
    decreases upto,
{
    if upto == 0 {
        Some(Seq::empty())
    } else {
        match (gathered(pieces, (upto - 1) as nat), pieces(upto - 1)) {
            (Some(front), Some(piece)) => Some(front + piece),
            _ => None,
        }
    }
}

/// A missing piece is missing for good.
proof fn lemma_gathered_none<V>(pieces: spec_fn(int) -> Option<Seq<V>>, at: nat, upto: nat)
    requires
        at < upto,
        pieces(at as int) is None,
    ensures
        gathered(pieces, upto) is None,
    decreases upto,
{
    if at < upto - 1 {
        lemma_gathered_none(pieces, at, (upto - 1) as nat);
    }
}

/// The piece of a vector that belongs to a block.
pub open spec fn piece_of<V>(offsets: Seq<usize>, input: Seq<V>, at: int) -> Seq<V> {
    input.subrange(offsets[at] as int, offsets[at + 1] as int)
}

fn cut<V: Scalar>(input: &[V], from: usize, to: usize) -> (piece: Vec<V>)
    requires
        from <= to <= input@.len(),
    ensures
        piece@ == input@.subrange(from as int, to as int),
{
    let mut piece: Vec<V> = Vec::new();
    let mut index: usize = from;
    while index < to
        invariant
            from <= index <= to <= input@.len(),
            piece@ =~= input@.subrange(from as int, index as int),
        decreases to - index,
    {
        piece.push(input[index]);
        index = index + 1;
    }
    piece
}

fn paste<V: Scalar>(output: &mut [V], from: usize, piece: &Vec<V>)
    requires
        from + piece@.len() <= old(output)@.len(),
    ensures
        final(output)@.len() == old(output)@.len(),
        final(output)@.subrange(0, from as int) == old(output)@.subrange(0, from as int),
        final(output)@.subrange(from as int, from + piece@.len()) == piece@,
{
    let ghost before = output@;
    let length: usize = output.len();
    let mut index: usize = 0;
    while index < piece.len()
        invariant
            index <= piece@.len(),
            from + piece@.len() <= length,
            length == output@.len(),
            length == before.len(),
            length == old(output)@.len(),
            forall|i: int| 0 <= i < from ==> #[trigger] output@[i] == before[i],
            forall|i: int| 0 <= i < index ==> output@[from + i] == #[trigger] piece@[i],
        decreases piece@.len() - index,
    {
        output[from + index] = piece[index];
        index = index + 1;
    }
    assert(output@.subrange(0, from as int) =~= before.subrange(0, from as int));
    assert(output@.subrange(from as int, from + piece@.len()) =~= piece@);
}

impl<O> BlockOps<O> {
    pub closed spec fn list(&self) -> Seq<O> {
        self.blocks@
    }

    pub closed spec fn offsets(&self) -> Seq<usize> {
        self.layout@
    }

    pub closed spec fn laid_out(&self) -> bool {
        self.layout.wf()
    }

    /// The blocks are square and fill the layout.
    pub open spec fn wf<V: Scalar>(&self) -> bool where O: LinearOperator<V> {
        &&& self.laid_out()
        &&& self.offsets().len() == self.list().len() + 1
        &&& self.offsets()[0] == 0
        &&& self.dimension() == self.offsets()[self.list().len() as int]
        &&& forall|i: int, j: int|
            0 <= i <= j < self.offsets().len() ==> self.offsets()[i] <= self.offsets()[j]
        &&& forall|k: int|
            0 <= k < self.list().len() ==> (#[trigger] self.list()[k]).usable()
                && self.list()[k].extent().0 == self.list()[k].extent().1
                && self.list()[k].extent().0 == self.offsets()[k + 1] - self.offsets()[k]
    }

    pub closed spec fn dimension(&self) -> usize {
        self.size
    }

    /// The image of a piece of a vector under its block, or its transpose.
    pub open spec fn piece_image<V: Scalar>(&self, input: Seq<V>, back: bool, at: int) -> Option<
        Seq<V>,
    > where O: LinearOperator<V> {
        if back {
            self.list()[at].maps_back(piece_of(self.offsets(), input, at))
        } else {
            self.list()[at].maps(piece_of(self.offsets(), input, at))
        }
    }

    /// The block is the first that refuses its piece of a vector, and refuses it with the
    /// error.
    pub open spec fn piece_refused<V: Scalar>(
        &self,
        input: Seq<V>,
        back: bool,
        at: int,
        error: QmbedError,
    ) -> bool where O: LinearOperator<V> {
        let piece = piece_of(self.offsets(), input, at);
        &&& 0 <= at < self.list().len()
        &&& forall|k: int| 0 <= k < at ==> (#[trigger] self.piece_image(input, back, k)) is Some
        &&& self.piece_image(input, back, at) is None
        &&& if back {
            self.list()[at].refuses_back(piece, error)
        } else {
            self.list()[at].refuses(piece, error)
        }
    }

    pub open spec fn shapes_of<V: Scalar>(blocks: Seq<O>) -> Seq<(usize, usize)> where
        O: LinearOperator<V>,
     {
        Seq::new(blocks.len(), |k: int| blocks[k].extent())
    }

    /// A direct sum of square blocks.
    pub fn new<V: Scalar>(blocks: Vec<O>) -> (result: Result<Self>) where O: LinearOperator<V>
        requires
            forall|k: int| 0 <= k < blocks@.len() ==> (#[trigger] blocks@[k]).usable(),
        ensures
            match result {
                Ok(sum) => sum.wf::<V>() && sum.list() == blocks@ && blocks@.len() > 0,
                Err(QmbedError::DimensionMismatch(_)) => block::shape_fails_first(
                    Self::shapes_of::<V>(blocks@),
                ),
                Err(QmbedError::UnsupportedBackend(_)) => block::offset_of(
                    Self::shapes_of::<V>(blocks@),
                    blocks@.len(),
                ) > usize::MAX && !block::shape_fails_first(Self::shapes_of::<V>(blocks@)),
                Err(QmbedError::InvalidOptions(_)) => blocks@.len() == 0,
                Err(_) => false,
            },
    {
        let mut shapes: Vec<(usize, usize)> = Vec::new();
        while shapes.len() < blocks.len()
            invariant
                shapes@.len() <= blocks@.len(),
                forall|k: int|
                    0 <= k < shapes@.len() ==> #[trigger] shapes@[k] == blocks@[k].extent(),
            decreases blocks@.len() - shapes@.len(),
        {
            shapes.push(blocks[shapes.len()].shape());
        }
        assert(shapes@ =~= Self::shapes_of::<V>(blocks@));
        match BlockLayout::new(shapes.as_slice()) {
            Ok(layout) => {
                let size: usize = layout.dimension();
                let sum = BlockOps { blocks, layout, size };
                proof {
                    assert forall|k: int| 0 <= k < sum.list().len() implies (
                    #[trigger] sum.list()[k]).extent().0 == sum.list()[k].extent().1
                        && sum.list()[k].extent().0 == sum.offsets()[k + 1] - sum.offsets()[k] by {
                        assert(shapes@[k].0 == shapes@[k].1);
                        assert(layout@[k] == block::offset_of(shapes@, k as nat));
                        assert(layout@[k + 1] == block::offset_of(shapes@, (k + 1) as nat));
                    }
                }
                Ok(sum)
            },
            Err(error) => Err(error),
        }
    }

    /// The number of blocks.
    pub fn blocks(&self) -> (count: usize)
        ensures
            count == self.list().len(),
    {
        self.blocks.len()
    }

    /// Appends a block behind the others.
    pub fn push<V: Scalar>(&mut self, block: O) -> (result: Result<()>) where O: LinearOperator<V>
        requires
            old(self).wf::<V>(),
            block.usable(),
        ensures
            final(self).wf::<V>(),
            match result {
                Ok(()) => {
                    &&& block.extent().0 == block.extent().1
                    &&& old(self).dimension() + block.extent().0 <= usize::MAX
                    &&& final(self).list() == old(self).list().push(block)
                },
                Err(QmbedError::DimensionMismatch(_)) => block.extent().0 != block.extent().1
                    && final(self).list() == old(self).list(),
                Err(QmbedError::UnsupportedBackend(_)) => block.extent().0 == block.extent().1
                    && old(self).dimension() + block.extent().0 > usize::MAX && final(self).list()
                    == old(self).list(),
                Err(_) => false,
            },
    {
        let ghost before = *self;
        let shape: (usize, usize) = block.shape();
        match self.layout.push(shape) {
            Ok(()) => {
                self.blocks.push(block);
                self.size = self.layout.dimension();
                proof {
                    assert forall|k: int| 0 <= k < self.list().len() implies (
                    #[trigger] self.list()[k]).usable() && self.list()[k].extent().0
                        == self.list()[k].extent().1 && self.list()[k].extent().0
                        == self.offsets()[k + 1] - self.offsets()[k] by {
                        if k < before.list().len() {
                            assert(self.list()[k] == before.list()[k]);
                            assert(before.list()[k].usable());
                        }
                    }
                }
                Ok(())
            },
            Err(error) => Err(error),
        }
    }

    fn run<V: Scalar>(&self, input: &[V], output: &mut [V], back: bool) -> (result: Result<()>) where
        O: LinearOperator<V>,

        requires
            self.wf::<V>(),
        ensures
            final(output)@.len() == old(output)@.len(),
            match result {
                Ok(()) => {
                    &&& input@.len() == self.dimension()
                    &&& old(output)@.len() == self.dimension()
                    &&& gathered(
                        |at: int| self.piece_image(input@, back, at),
                        self.list().len(),
                    ) == Some(final(output)@)
                },
                Err(error) => if input@.len() != self.dimension() || old(output)@.len()
                    != self.dimension() {
                    error is DimensionMismatch
                } else {
                    &&& gathered(
                        |at: int| self.piece_image(input@, back, at),
                        self.list().len(),
                    ) is None
                    &&& exists|at: int| #[trigger] self.piece_refused(input@, back, at, error)
                },
            },
    {
        let dimension: usize = self.size;
        if input.len() != dimension || output.len() != dimension {
            return Err(
                QmbedError::DimensionMismatch(
                    "vectors do not match the dimension of the blocks".to_string(),
                ),
            );
        }
        let ghost pieces = |at: int| self.piece_image(input@, back, at);
        let mut index: usize = 0;
        assert(output@.subrange(0, 0) =~= Seq::<V>::empty());
        while index < self.blocks.len()
            invariant
                self.wf::<V>(),
                input@.len() == self.dimension(),
                output@.len() == self.dimension(),
                old(output)@.len() == self.dimension(),
                pieces == (|at: int| self.piece_image(input@, back, at)),
                index <= self.list().len(),
                gathered(pieces, index as nat) == Some(
                    output@.subrange(0, self.offsets()[index as int] as int),
                ),
                forall|k: int|
                    0 <= k < index ==> (#[trigger] self.piece_image(input@, back, k)) is Some,
            decreases self.blocks@.len() - index,
        {
            let from: usize = self.layout.at(index);
            let to: usize = self.layout.at(index + 1);
            proof {
                assert(self.offsets()[index + 1] <= self.offsets()[self.list().len() as int]);
                assert(self.list()[index as int].usable());
            }
            let piece: Vec<V> = cut(input, from, to);
            let mut image: Vec<V> = operator::zeros(to - from);
            let done: Result<()> = if back {
                self.blocks[index].apply_transpose(piece.as_slice(), image.as_mut_slice())
            } else {
                self.blocks[index].apply(piece.as_slice(), image.as_mut_slice())
            };
            assert(piece@ == piece_of(self.offsets(), input@, index as int));
            match done {
                Ok(()) => {},
                Err(error) => {
                    proof {
                        assert(pieces(index as int) is None);
                        lemma_gathered_none(pieces, index as nat, self.list().len());
                        assert(self.piece_refused(input@, back, index as int, error));
                    }
                    return Err(error);
                },
            }
            let ghost before = output@;
            paste(output, from, &image);
            proof {
                assert(pieces(index as int) == Some(image@));
                assert(output@.subrange(0, to as int) =~= output@.subrange(0, from as int)
                    + output@.subrange(from as int, to as int));
            }
            index = index + 1;
        }
        assert(output@.subrange(0, dimension as int) =~= output@);
        Ok(())
    }
}

impl<V: Scalar, O: LinearOperator<V>> LinearOperator<V> for BlockOps<O> {
    open spec fn usable(&self) -> bool {
        self.wf::<V>()
    }

    open spec fn extent(&self) -> (usize, usize) {
        (self.dimension(), self.dimension())
    }

    open spec fn maps(&self, input: Seq<V>) -> Option<Seq<V>> {
        gathered(|at: int| self.piece_image(input, false, at), self.list().len())
    }

    open spec fn maps_back(&self, input: Seq<V>) -> Option<Seq<V>> {
        gathered(|at: int| self.piece_image(input, true, at), self.list().len())
    }

    open spec fn stored_as(&self) -> MatrixFormat {
        MatrixFormat::MatrixFree
    }

    open spec fn offers(&self, entries: Option<Seq<Triplet<V>>>) -> bool {
        match entries {
            Some(list) => exists|lists: Seq<Seq<Triplet<V>>>| #[trigger]
                offered_all(self.list(), lists) && list == joined(
                    lists,
                    self.offsets(),
                    lists.len(),
                ),
            None => exists|k: int|
                0 <= k < self.list().len() && (#[trigger] self.list()[k]).offers(None),
        }
    }

    open spec fn refuses(&self, input: Seq<V>, error: QmbedError) -> bool {
        exists|at: int| #[trigger] self.piece_refused(input, false, at, error)
    }

    open spec fn refuses_back(&self, input: Seq<V>, error: QmbedError) -> bool {
        exists|at: int| #[trigger] self.piece_refused(input, true, at, error)
    }

    open spec fn withholds(&self, error: QmbedError) -> bool {
        exists|k: int| 0 <= k < self.list().len() && (#[trigger] self.list()[k]).withholds(error)
    }

    fn stored_triplets(&self) -> (result: Result<Option<Vec<Triplet<V>>>>) {
        let mut list: Vec<Triplet<V>> = Vec::new();
        let ghost mut lists: Seq<Seq<Triplet<V>>> = Seq::empty();
        let mut index: usize = 0;
        while index < self.blocks.len()
            invariant
                self.wf::<V>(),
                index <= self.list().len(),
                lists.len() == index,
                forall|k: int|
                    0 <= k < lists.len() ==> self.list()[k].offers(Some(#[trigger] lists[k])),
                list@ == joined(lists, self.offsets(), lists.len()),
                triplets::fits(list@, self.dimension() as int, self.dimension() as int),
            decreases self.blocks@.len() - index,
        {
            let offset: usize = self.layout.at(index);
            let ghost k = index as int;
            assert(self.list()[k].usable());
            match self.blocks[index].stored_triplets() {
                Ok(Some(entries)) => {
                    assert(self.offsets()[k + 1] <= self.offsets()[self.list().len() as int]);
                    append_down(&entries, offset, self.size, &mut list);
                    proof {
                        let before = lists;
                        lists = before.push(entries@);
                        lemma_joined_longer(before, entries@, self.offsets());
                    }
                },
                Ok(None) => {
                    assert(self.list()[k].offers(None));
                    return Ok(None);
                },
                Err(error) => {
                    assert(self.list()[k].withholds(error));
                    return Err(error);
                },
            }
            index = index + 1;
        }
        assert(offered_all(self.list(), lists));
        Ok(Some(list))
    }

    fn shape(&self) -> (shape: (usize, usize)) {
        (self.size, self.size)
    }

    fn format(&self) -> (format: MatrixFormat) {
        MatrixFormat::MatrixFree
    }

    fn apply(&self, input: &[V], output: &mut [V]) -> (result: Result<()>) {
        self.run(input, output, false)
    }

    fn apply_transpose(&self, input: &[V], output: &mut [V]) -> (result: Result<()>) {
        self.run(input, output, true)
    }
}

/// The entries moved down the diagonal.
pub open spec fn moved_down<V>(list: Seq<Triplet<V>>, offset: usize) -> Seq<Triplet<V>> {
    Seq::new(
        list.len(),
        |i: int|
            Triplet {
                row: (list[i].row + offset) as usize,
                column: (list[i].column + offset) as usize,
                value: list[i].value,
            },
    )
}

proof fn lemma_moved_down<V>(
    list: Seq<Triplet<V>>,
    offset: usize,
    size: int,
    row: int,
    column: int,
)
    requires
        triplets::fits(list, size, size),
        offset + size <= usize::MAX,
    ensures
        triplets::values_at(moved_down(list, offset), row, column) == triplets::values_at(
            list,
            row - offset,
            column - offset,
        ),
    decreases list.len(),
{
    if list.len() > 0 {
        let short = list.drop_last();
        assert forall|i: int| 0 <= i < short.len() implies (#[trigger] short[i]).row < size
            && short[i].column < size by {
            assert(short[i] == list[i]);
        }
        lemma_moved_down(short, offset, size, row, column);
        assert(moved_down(list, offset).drop_last() =~= moved_down(short, offset));
        assert(list.last() == list[list.len() - 1]);
        assert(list.last().row < size);
    }
}

/// The place lies in a block.
pub open spec fn in_block(offsets: Seq<usize>, at: int, place: int) -> bool {
    offsets[at] <= place < offsets[at + 1]
}

/// The entries of the first blocks, each moved down the diagonal to its place.
pub open spec fn joined<V>(
    lists: Seq<Seq<Triplet<V>>>,
    offsets: Seq<usize>,
    upto: nat,
) -> Seq<Triplet<V>>
    decreases upto,
{
    if upto == 0 {
        Seq::empty()
    } else {
        joined(lists, offsets, (upto - 1) as nat) + moved_down(
            lists[upto - 1],
            offsets[upto - 1],
        )
    }
}

proof fn lemma_joined_prefix<V>(
    short: Seq<Seq<Triplet<V>>>,
    long: Seq<Seq<Triplet<V>>>,
    offsets: Seq<usize>,
    upto: nat,
)
    requires
        upto <= short.len(),
        short.len() <= long.len(),
        forall|k: int| 0 <= k < short.len() ==> #[trigger] short[k] == long[k],
    ensures
        joined(short, offsets, upto) == joined(long, offsets, upto),
    decreases upto,
{
    if upto > 0 {
        lemma_joined_prefix(short, long, offsets, (upto - 1) as nat);
        assert(short[upto - 1] == long[upto - 1]);
    }
}

proof fn lemma_joined_longer<V>(
    lists: Seq<Seq<Triplet<V>>>,
    entries: Seq<Triplet<V>>,
    offsets: Seq<usize>,
)
    ensures
        joined(lists.push(entries), offsets, lists.len() + 1) == joined(
            lists,
            offsets,
            lists.len(),
        ) + moved_down(entries, offsets[lists.len() as int]),
{
    lemma_joined_prefix(lists, lists.push(entries), offsets, lists.len());
}

/// Every block hands out its entries.
pub open spec fn offered_all<V: Scalar, O: LinearOperator<V>>(
    blocks: Seq<O>,
    lists: Seq<Seq<Triplet<V>>>,
) -> bool {
    &&& lists.len() == blocks.len()
    &&& forall|k: int| 0 <= k < lists.len() ==> blocks[k].offers(Some(#[trigger] lists[k]))
}

/// The entries of every block.
pub open spec fn streamed_all<V: Scalar, O: LinearOperator<V>>(
    blocks: Seq<O>,
    lists: Seq<Seq<Triplet<V>>>,
) -> bool {
    &&& lists.len() == blocks.len()
    &&& forall|k: int|
        0 <= k < lists.len() ==> columns::streams(&blocks[k], #[trigger] lists[k])
}

/// The first blocks give their entries, and the next one does not, for the reason that the
/// error gives.
pub open spec fn streams_until<V: Scalar, O: LinearOperator<V>>(
    blocks: Seq<O>,
    at: int,
    error: QmbedError,
) -> bool {
    &&& 0 <= at < blocks.len()
    &&& columns::unstreamable(&blocks[at], error)
    &&& exists|lists: Seq<Seq<Triplet<V>>>| #[trigger] streamed_all(blocks.take(at), lists)
}

/// Appends entries moved down the diagonal.
fn append_down<V: Scalar>(
    entries: &Vec<Triplet<V>>,
    offset: usize,
    total: usize,
    list: &mut Vec<Triplet<V>>,
)
    requires
        triplets::fits(entries@, total - offset, total - offset),
        triplets::fits(old(list)@, total as int, total as int),
    ensures
        final(list)@ == old(list)@ + moved_down(entries@, offset),
        triplets::fits(final(list)@, total as int, total as int),
{
    let ghost head = list@;
    let ghost tail = moved_down(entries@, offset);
    let mut index: usize = 0;
    assert(head + tail.take(0) =~= head);
    while index < entries.len()
        invariant
            index <= entries@.len(),
            triplets::fits(entries@, total - offset, total - offset),
            triplets::fits(list@, total as int, total as int),
            tail == moved_down(entries@, offset),
            list@ == head + tail.take(index as int),
        decreases entries@.len() - index,
    {
        let entry: Triplet<V> = entries[index];
        assert(entries@[index as int].row < total - offset);
        list.push(
            Triplet { row: entry.row + offset, column: entry.column + offset, value: entry.value },
        );
        assert(tail.take(index + 1) =~= tail.take(index as int).push(tail[index as int]));
        assert((head + tail.take(index as int)).push(tail[index as int]) =~= head + tail.take(
            index + 1,
        ));
        index = index + 1;
    }
    assert(tail.take(index as int) =~= tail);
}

/// What a list holds for the places of the first blocks.
spec fn filled<V: Scalar>(
    lists: Seq<Seq<Triplet<V>>>,
    offsets: Seq<usize>,
    list: Seq<Triplet<V>>,
    upto: int,
) -> bool {
    &&& forall|k: int, row: int, column: int|
        0 <= k < upto && in_block(offsets, k, row) && in_block(offsets, k, column)
            ==> #[trigger] held(lists, offsets, list, k, row, column)
    &&& forall|row: int, column: int|
        (forall|k: int|
            0 <= k < upto ==> !(#[trigger] in_block(offsets, k, row) && in_block(
                offsets,
                k,
                column,
            ))) ==> #[trigger] triplets::values_at(list, row, column) == Seq::<V>::empty()
}

spec fn held<V: Scalar>(
    lists: Seq<Seq<Triplet<V>>>,
    offsets: Seq<usize>,
    list: Seq<Triplet<V>>,
    k: int,
    row: int,
    column: int,
) -> bool {
    triplets::values_at(list, row, column) == triplets::values_at(
        lists[k],
        row - offsets[k],
        column - offsets[k],
    )
}

/// The blocks are square and fill the layout.
pub open spec fn arranged<V: Scalar, O: LinearOperator<V>>(
    blocks: Seq<O>,
    offsets: Seq<usize>,
) -> bool {
    &&& offsets.len() == blocks.len() + 1
    &&& offsets[0] == 0
    &&& forall|i: int, j: int| 0 <= i <= j < offsets.len() ==> offsets[i] <= offsets[j]
    &&& forall|k: int|
        0 <= k < blocks.len() ==> (#[trigger] blocks[k]).usable() && blocks[k].extent().0
            == blocks[k].extent().1 && blocks[k].extent().0 == offsets[k + 1] - offsets[k]
}

/// The lists fit the layout.
spec fn fitted<V: Scalar>(lists: Seq<Seq<Triplet<V>>>, offsets: Seq<usize>) -> bool {
    &&& offsets.len() == lists.len() + 1
    &&& forall|i: int, j: int| 0 <= i <= j < offsets.len() ==> offsets[i] <= offsets[j]
    &&& forall|k: int|
        0 <= k < lists.len() ==> triplets::fits(
            #[trigger] lists[k],
            offsets[k + 1] - offsets[k],
            offsets[k + 1] - offsets[k],
        )
}

/// The matrix sums up the entries of each block along its diagonal and holds nothing
/// elsewhere.
pub open spec fn sums_blocks<V: Scalar>(
    matrix: &Operator<V>,
    lists: Seq<Seq<Triplet<V>>>,
    offsets: Seq<usize>,
    format: MatrixFormat,
) -> bool {
    &&& matrix.wf()
    &&& matrix.shape == (offsets[lists.len() as int], offsets[lists.len() as int])
    &&& matrix.format == format
    &&& forall|k: int, row: int, column: int|
        #![trigger in_block(offsets, k, row), matrix.entry(row, column)]
        0 <= k < lists.len() && in_block(offsets, k, row) && in_block(offsets, k, column)
            ==> matrix.entry(row, column) == operator::settled(
            format,
            triplets::cell_sum(lists[k], row - offsets[k], column - offsets[k]),
        )
    &&& forall|k: int, l: int, row: int, column: int|
        #![trigger in_block(offsets, k, row), in_block(offsets, l, column), matrix.entry(row, column)]
        0 <= k < lists.len() && 0 <= l < lists.len() && k != l && in_block(offsets, k, row)
            && in_block(offsets, l, column) ==> matrix.entry(row, column) == operator::settled(
            format,
            V::zero_value(),
        )
}

/// All entries of a list are finite.
pub open spec fn finite_list<V: Scalar>(list: Seq<Triplet<V>>) -> bool {
    forall|i: int| 0 <= i < list.len() ==> (#[trigger] list[i]).value.proper()
}

/// All entries of all blocks are finite.
pub open spec fn finite_lists<V: Scalar>(lists: Seq<Seq<Triplet<V>>>) -> bool {
    forall|k: int| 0 <= k < lists.len() ==> finite_list(#[trigger] lists[k])
}

/// The matrix holds the blocks along its diagonal and nothing elsewhere.
pub open spec fn block_diagonal<V: Scalar>(
    matrix: &Operator<V>,
    blocks: Seq<Operator<V>>,
    offsets: Seq<usize>,
    format: MatrixFormat,
) -> bool {
    &&& matrix.wf()
    &&& matrix.shape == (offsets[blocks.len() as int], offsets[blocks.len() as int])
    &&& matrix.format == format
    &&& forall|k: int, row: int, column: int|
        #![trigger in_block(offsets, k, row), matrix.entry(row, column)]
        0 <= k < blocks.len() && in_block(offsets, k, row) && in_block(offsets, k, column)
            ==> matrix.entry(row, column) == operator::settled(
            format,
            algebra::rewritten(
                Change::Keep,
                blocks[k].entry(row - offsets[k], column - offsets[k]),
            ),
        )
    &&& forall|k: int, l: int, row: int, column: int|
        #![trigger in_block(offsets, k, row), in_block(offsets, l, column), matrix.entry(row, column)]
        0 <= k < blocks.len() && 0 <= l < blocks.len() && k != l && in_block(offsets, k, row)
            && in_block(offsets, l, column) ==> matrix.entry(row, column) == operator::settled(
            format,
            V::zero_value(),
        )
}

/// Every block stays finite.
pub open spec fn finite_blocks<V: Scalar>(blocks: Seq<Operator<V>>) -> bool {
    forall|k: int| 0 <= k < blocks.len() ==> (#[trigger] blocks[k]).stays_finite(Change::Keep)
}

proof fn lemma_one_block(offsets: Seq<usize>, k: int, l: int, place: int)
    requires
        forall|i: int, j: int| 0 <= i <= j < offsets.len() ==> offsets[i] <= offsets[j],
        0 <= k < offsets.len() - 1,
        0 <= l < offsets.len() - 1,
        in_block(offsets, k, place),
        in_block(offsets, l, place),
    ensures
        k == l,
{
    if k < l {
        assert(offsets[k + 1] <= offsets[l]);
    } else if l < k {
        assert(offsets[l + 1] <= offsets[k]);
    }
}

proof fn lemma_outside<V>(list: Seq<Triplet<V>>, size: int, row: int, column: int)
    requires
        triplets::fits(list, size, size),
        !(0 <= row < size && 0 <= column < size),
    ensures
        triplets::values_at(list, row, column) == Seq::<V>::empty(),
{
    assert forall|i: int| 0 <= i < list.len() implies !triplets::stands_at(
        #[trigger] list[i],
        row,
        column,
    ) by {
        assert(list[i].row < size && list[i].column < size);
    }
    triplets::lemma_no_values(list, row, column);
}

proof fn lemma_filled<V: Scalar>(
    lists: Seq<Seq<Triplet<V>>>,
    offsets: Seq<usize>,
    upto: nat,
)
    requires
        fitted(lists, offsets),
        upto <= lists.len(),
    ensures
        filled(lists, offsets, joined(lists, offsets, upto), upto as int),
    decreases upto,
{
    if upto > 0 {
        let at = upto - 1;
        lemma_filled(lists, offsets, at as nat);
        let head = joined(lists, offsets, at as nat);
        let whole = joined(lists, offsets, upto);
        let entries = lists[at];
        let offset = offsets[at];
        let size = offsets[at + 1] - offsets[at];
        assert forall|row: int, column: int| #[trigger]
            triplets::values_at(whole, row, column) == triplets::values_at(head, row, column)
            + triplets::values_at(entries, row - offset, column - offset) by {
            triplets::lemma_values_concat(head, moved_down(entries, offset), row, column);
            lemma_moved_down(entries, offset, size, row, column);
        }
        assert forall|k: int, row: int, column: int|
            0 <= k < upto && in_block(offsets, k, row) && in_block(
                offsets,
                k,
                column,
            ) implies #[trigger] held(lists, offsets, whole, k, row, column) by {
            let both = triplets::values_at(whole, row, column);
            if k < at {
                assert(held(lists, offsets, head, k, row, column));
                assert(offsets[k + 1] <= offsets[at]);
                lemma_outside(entries, size, row - offset, column - offset);
                assert(both =~= triplets::values_at(head, row, column));
            } else {
                assert forall|l: int| 0 <= l < at implies !(#[trigger] in_block(offsets, l, row)
                    && in_block(offsets, l, column)) by {
                    if in_block(offsets, l, row) {
                        lemma_one_block(offsets, l, at, row);
                    }
                }
                assert(triplets::values_at(head, row, column) == Seq::<V>::empty());
                assert(both =~= triplets::values_at(entries, row - offset, column - offset));
            }
        }
        assert forall|row: int, column: int|
            (forall|k: int|
                0 <= k < upto ==> !(#[trigger] in_block(offsets, k, row) && in_block(
                    offsets,
                    k,
                    column,
                ))) implies #[trigger] triplets::values_at(whole, row, column)
            == Seq::<V>::empty() by {
            assert forall|k: int| 0 <= k < at implies !(#[trigger] in_block(offsets, k, row)
                && in_block(offsets, k, column)) by {
                assert(!(in_block(offsets, k, row) && in_block(offsets, k, column)));
            }
            assert(triplets::values_at(head, row, column) == Seq::<V>::empty());
            assert(!(in_block(offsets, at, row) && in_block(offsets, at, column)));
            lemma_outside(entries, size, row - offset, column - offset);
            assert(triplets::values_at(whole, row, column) =~= Seq::<V>::empty());
        }
    } else {
        assert forall|row: int, column: int| #[trigger]
            triplets::values_at(joined(lists, offsets, 0), row, column) == Seq::<V>::empty() by {
            triplets::lemma_no_values(joined(lists, offsets, 0), row, column);
        }
    }
}

/// The joined entries are finite exactly if those of the blocks are.
proof fn lemma_joined_finite<V: Scalar>(
    lists: Seq<Seq<Triplet<V>>>,
    offsets: Seq<usize>,
    upto: nat,
)
    requires
        upto <= lists.len(),
    ensures
        finite_list(joined(lists, offsets, upto)) == (forall|k: int|
            0 <= k < upto ==> finite_list(#[trigger] lists[k])),
    decreases upto,
{
    if upto > 0 {
        let at = upto - 1;
        lemma_joined_finite(lists, offsets, at as nat);
        let head = joined(lists, offsets, at as nat);
        let tail = moved_down(lists[at], offsets[at]);
        let whole = joined(lists, offsets, upto);
        if finite_list(whole) {
            assert forall|i: int| 0 <= i < head.len() implies (
            #[trigger] head[i]).value.proper() by {
                assert(whole[i] == head[i]);
            }
            assert forall|j: int| 0 <= j < lists[at].len() implies (
            #[trigger] lists[at][j]).value.proper() by {
                assert(whole[head.len() + j] == tail[j]);
            }
            assert(finite_list(head) && finite_list(lists[at]));
        } else if finite_list(head) {
            let i = choose|i: int| 0 <= i < whole.len() && !(#[trigger] whole[i]).value.proper();
            if i < head.len() {
                assert(whole[i] == head[i]);
            } else {
                let j = i - head.len();
                assert(whole[i] == tail[j]);
                assert(!lists[at][j].value.proper());
                assert(!finite_list(lists[at]));
            }
        }
    }
}

/// The matrix of a direct sum, from the entries of its blocks.
pub fn block_diag_hamiltonian<V: Scalar, O: LinearOperator<V>>(
    blocks: &Vec<O>,
    format: MatrixFormat,
) -> (result: Result<Operator<V>>)
    requires
        forall|k: int| 0 <= k < blocks@.len() ==> (#[trigger] blocks@[k]).usable(),
        block::offset_of(
            BlockOps::<O>::shapes_of::<V>(blocks@),
            blocks@.len(),
        ) <= usize::MAX ==> operator::storable(
            block::offset_of(BlockOps::<O>::shapes_of::<V>(blocks@), blocks@.len()) as usize,
            block::offset_of(BlockOps::<O>::shapes_of::<V>(blocks@), blocks@.len()) as usize,
            format,
        ),
    ensures
        ({
            let shapes = BlockOps::<O>::shapes_of::<V>(blocks@);
            match result {
                Ok(matrix) => exists|offsets: Seq<usize>, lists: Seq<Seq<Triplet<V>>>|
                    {
                        &&& #[trigger] arranged(blocks@, offsets)
                        &&& #[trigger] streamed_all(blocks@, lists)
                        &&& finite_lists(lists)
                        &&& sums_blocks(&matrix, lists, offsets, format)
                    },
                Err(error) => {
                    ||| error is DimensionMismatch && block::shape_fails_first(shapes)
                    ||| error is UnsupportedBackend && block::offset_of(shapes, blocks@.len())
                        > usize::MAX && !block::shape_fails_first(shapes)
                    ||| error is InvalidOptions && blocks@.len() == 0
                    ||| exists|k: int| #[trigger] streams_until(blocks@, k, error)
                    ||| error is InvalidCoupling && exists|lists: Seq<Seq<Triplet<V>>>| #[trigger]
                        streamed_all(blocks@, lists) && !finite_lists(lists)
                },
            }
        }),
{
    let mut shapes: Vec<(usize, usize)> = Vec::new();
    while shapes.len() < blocks.len()
        invariant
            shapes@.len() <= blocks@.len(),
            forall|k: int| 0 <= k < shapes@.len() ==> #[trigger] shapes@[k] == blocks@[k].extent(),
        decreases blocks@.len() - shapes@.len(),
    {
        shapes.push(blocks[shapes.len()].shape());
    }
    assert(shapes@ =~= BlockOps::<O>::shapes_of::<V>(blocks@));
    let layout: BlockLayout = match BlockLayout::new(shapes.as_slice()) {
        Ok(layout) => layout,
        Err(error) => {
            return Err(error);
        },
    };
    let ghost offsets = layout@;
    let total: usize = layout.dimension();
    proof {
        assert forall|k: int| 0 <= k < blocks@.len() implies (#[trigger] blocks@[k]).extent().0
            == blocks@[k].extent().1 && blocks@[k].extent().0 == offsets[k + 1] - offsets[k] by {
            assert(shapes@[k].0 == shapes@[k].1);
            assert(layout@[k] == block::offset_of(shapes@, k as nat));
            assert(layout@[k + 1] == block::offset_of(shapes@, (k + 1) as nat));
        }
        assert(arranged(blocks@, offsets));
        assert(total == block::offset_of(shapes@, shapes@.len()));
    }
    let mut list: Vec<Triplet<V>> = Vec::new();
    let ghost mut lists: Seq<Seq<Triplet<V>>> = Seq::empty();
    let mut index: usize = 0;
    while index < blocks.len()
        invariant
            arranged(blocks@, offsets),
            offsets == layout@,
            total == offsets[blocks@.len() as int],
            index <= blocks@.len(),
            lists.len() == index,
            forall|k: int|
                0 <= k < lists.len() ==> columns::streams(&blocks@[k], #[trigger] lists[k])
                    && triplets::fits(
                    lists[k],
                    offsets[k + 1] - offsets[k],
                    offsets[k + 1] - offsets[k],
                ),
            list@ == joined(lists, offsets, lists.len()),
            triplets::fits(list@, total as int, total as int),
        decreases blocks@.len() - index,
    {
        let offset: usize = layout.at(index);
        let ghost k = index as int;
        assert(blocks@[k].usable());
        match columns::streamed_triplets(&blocks[index]) {
            Ok(entries) => {
                assert(offsets[k + 1] <= offsets[blocks@.len() as int]);
                append_down(&entries, offset, total, &mut list);
                proof {
                    let before = lists;
                    lists = before.push(entries@);
                    lemma_joined_longer(before, entries@, offsets);
                }
            },
            Err(error) => {
                proof {
                    assert(blocks@.take(k).len() == k);
                    assert(streamed_all(blocks@.take(k), lists));
                    assert(streams_until(blocks@, k, error));
                }
                return Err(error);
            },
        }
        index = index + 1;
    }
    proof {
        assert(streamed_all(blocks@, lists));
        lemma_filled(lists, offsets, lists.len());
        lemma_joined_finite(lists, offsets, lists.len());
        assert(finite_list(list@) == finite_lists(lists));
        if operator::acceptable(list@, total as int, total as int) {
            assert forall|i: int| 0 <= i < list@.len() implies (
            #[trigger] list@[i]).value.proper() by {}
        }
    }
    let result: Result<Operator<V>> = Operator::from_triplets(total, total, list.as_slice(), format);
    proof {
        if let Ok(matrix) = &result {
            lemma_block_matrix(matrix, lists, offsets, list@, format);
        }
    }
    result
}

proof fn lemma_block_matrix<V: Scalar>(
    matrix: &Operator<V>,
    lists: Seq<Seq<Triplet<V>>>,
    offsets: Seq<usize>,
    list: Seq<Triplet<V>>,
    format: MatrixFormat,
)
    requires
        fitted(lists, offsets),
        offsets[0] == 0,
        filled(lists, offsets, list, lists.len() as int),
        matrix.wf(),
        matrix.shape == (offsets[lists.len() as int], offsets[lists.len() as int]),
        matrix.format == format,
        forall|row: int, column: int|
            matrix.inside(row, column) ==> #[trigger] matrix.entry(row, column)
                == operator::settled(format, triplets::cell_sum(list, row, column)),
    ensures
        sums_blocks(matrix, lists, offsets, format),
{
    assert forall|k: int, row: int, column: int|
        #![trigger in_block(offsets, k, row), matrix.entry(row, column)]
        0 <= k < lists.len() && in_block(offsets, k, row) && in_block(
            offsets,
            k,
            column,
        ) implies matrix.entry(row, column) == operator::settled(
        format,
        triplets::cell_sum(lists[k], row - offsets[k], column - offsets[k]),
    ) by {
        assert(offsets[k + 1] <= offsets[lists.len() as int]);
        assert(matrix.inside(row, column));
        assert(held(lists, offsets, list, k, row, column));
    }
    assert forall|k: int, l: int, row: int, column: int|
        #![trigger in_block(offsets, k, row), in_block(offsets, l, column), matrix.entry(row, column)]
        0 <= k < lists.len() && 0 <= l < lists.len() && k != l && in_block(offsets, k, row)
            && in_block(offsets, l, column) implies matrix.entry(row, column)
        == operator::settled(format, V::zero_value()) by {
        assert(offsets[k + 1] <= offsets[lists.len() as int]);
        assert(offsets[l + 1] <= offsets[lists.len() as int]);
        assert(matrix.inside(row, column));
        assert forall|m: int| 0 <= m < lists.len() implies !(#[trigger] in_block(offsets, m, row)
            && in_block(offsets, m, column)) by {
            if in_block(offsets, m, row) && in_block(offsets, m, column) {
                lemma_one_block(offsets, m, k, row);
                lemma_one_block(offsets, m, l, column);
            }
        }
        assert(triplets::values_at(list, row, column) == Seq::<V>::empty());
    }
}

/// In a direct sum of stored matrices every block stands along the diagonal as it is.
pub proof fn stored_blocks_stand<V: Scalar>(
    matrix: &Operator<V>,
    blocks: Seq<Operator<V>>,
    lists: Seq<Seq<Triplet<V>>>,
    offsets: Seq<usize>,
    format: MatrixFormat,
)
    requires
        arranged(blocks, offsets),
        streamed_all(blocks, lists),
        sums_blocks(matrix, lists, offsets, format),
    ensures
        block_diagonal(matrix, blocks, offsets, format),
        finite_lists(lists) == finite_blocks(blocks),
{
    assert forall|k: int, row: int, column: int|
        #![trigger in_block(offsets, k, row), matrix.entry(row, column)]
        0 <= k < blocks.len() && in_block(offsets, k, row) && in_block(
            offsets,
            k,
            column,
        ) implies matrix.entry(row, column) == operator::settled(
        format,
        algebra::rewritten(Change::Keep, blocks[k].entry(row - offsets[k], column - offsets[k])),
    ) by {
        let r = row - offsets[k];
        let c = column - offsets[k];
        assert(blocks[k].usable());
        assert(columns::streams(&blocks[k], lists[k]));
        algebra::lemma_spelled_values(&blocks[k], lists[k], r, c);
        let value = blocks[k].entry(r, c);
        if !value.tiny() {
            algebra::lemma_sum_one(value);
        }
    }
    lemma_finite_lists(blocks, lists, offsets);
}

proof fn lemma_finite_lists<V: Scalar>(
    blocks: Seq<Operator<V>>,
    lists: Seq<Seq<Triplet<V>>>,
    offsets: Seq<usize>,
)
    requires
        arranged(blocks, offsets),
        streamed_all(blocks, lists),
    ensures
        finite_lists(lists) == finite_blocks(blocks),
{
    if finite_lists(lists) {
        assert forall|k: int| 0 <= k < blocks.len() implies (
        #[trigger] blocks[k]).stays_finite(Change::Keep) by {
            let block = blocks[k];
            assert(columns::streams(&blocks[k], lists[k]));
            assert forall|row: int, column: int|
                block.inside(row, column) && !(#[trigger] block.entry(
                    row,
                    column,
                )).tiny() implies algebra::changed(
                Change::Keep,
                block.entry(row, column),
            ).proper() by {
                let i = choose|i: int|
                    0 <= i < lists[k].len() && triplets::stands_at(
                        #[trigger] lists[k][i],
                        row,
                        column,
                    );
                assert(finite_list(lists[k]));
                assert(lists[k][i].value.proper());
            }
        }
    }
    if finite_blocks(blocks) {
        assert forall|k: int| 0 <= k < lists.len() implies finite_list(#[trigger] lists[k]) by {
            let block = blocks[k];
            assert(columns::streams(&blocks[k], lists[k]));
            assert(block.stays_finite(Change::Keep));
            assert forall|i: int| 0 <= i < lists[k].len() implies (
            #[trigger] lists[k][i]).value.proper() by {
                let entry = lists[k][i];
                assert(block.inside(entry.row as int, entry.column as int));
                assert(entry.value == block.entry(entry.row as int, entry.column as int));
            }
        }
    }
}

impl<O> BlockOps<O> {
    /// The matrix of the direct sum, from the entries of its blocks.
    pub fn materialize<V: Scalar>(&self, format: MatrixFormat) -> (result: Result<Operator<V>>) where
        O: LinearOperator<V>,

        requires
            self.wf::<V>(),
            self.list().len() > 0,
            operator::storable(self.dimension(), self.dimension(), format),
        ensures
            match result {
                Ok(matrix) => exists|lists: Seq<Seq<Triplet<V>>>|
                    {
                        &&& #[trigger] streamed_all(self.list(), lists)
                        &&& finite_lists(lists)
                        &&& sums_blocks(&matrix, lists, self.offsets(), format)
                    },
                Err(error) => {
                    ||| exists|k: int| #[trigger] streams_until(self.list(), k, error)
                    ||| error is InvalidCoupling && exists|lists: Seq<Seq<Triplet<V>>>| #[trigger]
                        streamed_all(self.list(), lists) && !finite_lists(lists)
                },
            },
    {
        proof {
            let shapes = BlockOps::<O>::shapes_of::<V>(self.list());
            assert forall|k: nat| k <= self.list().len() implies #[trigger] block::offset_of(
                shapes,
                k,
            ) == self.offsets()[k as int] by {
                lemma_offsets_match(self, k);
            }
            assert(block::offset_of(shapes, self.list().len()) == self.dimension());
            assert forall|k: int| 0 <= k < shapes.len() implies (#[trigger] shapes[k]).0
                == shapes[k].1 by {
                assert(self.list()[k].usable());
            }
        }
        let result: Result<Operator<V>> = block_diag_hamiltonian(&self.blocks, format);
        proof {
            if let Ok(matrix) = &result {
                let (offsets, lists) = choose|offsets: Seq<usize>, lists: Seq<Seq<Triplet<V>>>|
                    {
                        &&& #[trigger] arranged(self.list(), offsets)
                        &&& #[trigger] streamed_all(self.list(), lists)
                        &&& finite_lists(lists)
                        &&& sums_blocks(matrix, lists, offsets, format)
                    };
                lemma_one_layout(self.list(), offsets, self.offsets(), self.list().len());
                assert(offsets =~= self.offsets()) by {
                    assert forall|k: int| 0 <= k < offsets.len() implies offsets[k]
                        == self.offsets()[k] by {
                        lemma_one_layout(self.list(), offsets, self.offsets(), k as nat);
                    }
                }
                assert(streamed_all(self.list(), lists));
            }
        }
        result
    }
}

/// Blocks fill one layout only.
proof fn lemma_one_layout<V: Scalar, O: LinearOperator<V>>(
    blocks: Seq<O>,
    left: Seq<usize>,
    right: Seq<usize>,
    k: nat,
)
    requires
        arranged(blocks, left),
        arranged(blocks, right),
        k <= blocks.len(),
    ensures
        left[k as int] == right[k as int],
    decreases k,
{
    if k > 0 {
        lemma_one_layout(blocks, left, right, (k - 1) as nat);
        assert(blocks[k - 1].usable());
    }
}

proof fn lemma_offsets_match<V: Scalar, O: LinearOperator<V>>(sum: &BlockOps<O>, k: nat)
    requires
        sum.wf::<V>(),
        k <= sum.list().len(),
    ensures
        block::offset_of(BlockOps::<O>::shapes_of::<V>(sum.list()), k) == sum.offsets()[k as int],
    decreases k,
{
    if k > 0 {
        lemma_offsets_match::<V, O>(sum, (k - 1) as nat);
        assert(sum.list()[k - 1].usable());
    }
}

impl<O> DynamicBlockOps<O> {
    pub closed spec fn list(&self) -> Seq<O> {
        self.blocks@
    }

    pub closed spec fn offsets(&self) -> Seq<usize> {
        self.layout@
    }

    pub closed spec fn laid_out(&self) -> bool {
        self.layout.wf()
    }

    /// The blocks are square and fill the layout.
    pub open spec fn wf<T: Moment, V: Scalar>(&self) -> bool where
        O: TimeDependentOperator<T, V>,
     {
        &&& self.laid_out()
        &&& self.offsets().len() == self.list().len() + 1
        &&& self.offsets()[0] == 0
        &&& self.dimension() == self.offsets()[self.list().len() as int]
        &&& forall|i: int, j: int|
            0 <= i <= j < self.offsets().len() ==> self.offsets()[i] <= self.offsets()[j]
        &&& forall|k: int|
            0 <= k < self.list().len() ==> (#[trigger] self.list()[k]).usable()
                && self.list()[k].extent().0 == self.list()[k].extent().1
                && self.list()[k].extent().0 == self.offsets()[k + 1] - self.offsets()[k]
    }

    pub closed spec fn dimension(&self) -> usize {
        self.size
    }

    /// The image of a piece of a vector under its block at a moment.
    pub open spec fn piece_image<T: Moment, V: Scalar>(&self, time: T, input: Seq<V>, at: int) -> Option<
        Seq<V>,
    > where O: TimeDependentOperator<T, V> {
        self.list()[at].maps_at(time, piece_of(self.offsets(), input, at))
    }

    /// The block is the first that refuses its piece of a vector at a moment, and refuses
    /// it with the error.
    pub open spec fn piece_refused<T: Moment, V: Scalar>(
        &self,
        time: T,
        input: Seq<V>,
        at: int,
        error: QmbedError,
    ) -> bool where O: TimeDependentOperator<T, V> {
        &&& 0 <= at < self.list().len()
        &&& forall|k: int| 0 <= k < at ==> (#[trigger] self.piece_image(time, input, k)) is Some
        &&& self.piece_image(time, input, at) is None
        &&& self.list()[at].refuses_at(time, piece_of(self.offsets(), input, at), error)
    }

    pub open spec fn shapes_of<T: Moment, V: Scalar>(blocks: Seq<O>) -> Seq<(usize, usize)> where
        O: TimeDependentOperator<T, V>,
     {
        Seq::new(blocks.len(), |k: int| blocks[k].extent())
    }

    /// A direct sum of square blocks.
    pub fn new<T: Moment, V: Scalar>(blocks: Vec<O>) -> (result: Result<Self>) where O: TimeDependentOperator<T, V>
        requires
            forall|k: int| 0 <= k < blocks@.len() ==> (#[trigger] blocks@[k]).usable(),
        ensures
            match result {
                Ok(sum) => sum.wf::<T, V>() && sum.list() == blocks@ && blocks@.len() > 0,
                Err(QmbedError::DimensionMismatch(_)) => block::shape_fails_first(
                    Self::shapes_of::<T, V>(blocks@),
                ),
                Err(QmbedError::UnsupportedBackend(_)) => block::offset_of(
                    Self::shapes_of::<T, V>(blocks@),
                    blocks@.len(),
                ) > usize::MAX && !block::shape_fails_first(Self::shapes_of::<T, V>(blocks@)),
                Err(QmbedError::InvalidOptions(_)) => blocks@.len() == 0,
                Err(_) => false,
            },
    {
        let mut shapes: Vec<(usize, usize)> = Vec::new();
        while shapes.len() < blocks.len()
            invariant
                shapes@.len() <= blocks@.len(),
                forall|k: int|
                    0 <= k < shapes@.len() ==> #[trigger] shapes@[k] == blocks@[k].extent(),
            decreases blocks@.len() - shapes@.len(),
        {
            shapes.push(blocks[shapes.len()].shape());
        }
        assert(shapes@ =~= Self::shapes_of::<T, V>(blocks@));
        match BlockLayout::new(shapes.as_slice()) {
            Ok(layout) => {
                let size: usize = layout.dimension();
                let sum = DynamicBlockOps { blocks, layout, size };
                proof {
                    assert forall|k: int| 0 <= k < sum.list().len() implies (
                    #[trigger] sum.list()[k]).extent().0 == sum.list()[k].extent().1
                        && sum.list()[k].extent().0 == sum.offsets()[k + 1] - sum.offsets()[k] by {
                        assert(shapes@[k].0 == shapes@[k].1);
                        assert(layout@[k] == block::offset_of(shapes@, k as nat));
                        assert(layout@[k + 1] == block::offset_of(shapes@, (k + 1) as nat));
                    }
                }
                Ok(sum)
            },
            Err(error) => Err(error),
        }
    }

    /// The number of blocks.
    pub fn blocks(&self) -> (count: usize)
        ensures
            count == self.list().len(),
    {
        self.blocks.len()
    }

    /// Appends a block behind the others.
    pub fn push<T: Moment, V: Scalar>(&mut self, block: O) -> (result: Result<()>) where O: TimeDependentOperator<T, V>
        requires
            old(self).wf::<T, V>(),
            block.usable(),
        ensures
            final(self).wf::<T, V>(),
            match result {
                Ok(()) => {
                    &&& block.extent().0 == block.extent().1
                    &&& old(self).dimension() + block.extent().0 <= usize::MAX
                    &&& final(self).list() == old(self).list().push(block)
                },
                Err(QmbedError::DimensionMismatch(_)) => block.extent().0 != block.extent().1
                    && final(self).list() == old(self).list(),
                Err(QmbedError::UnsupportedBackend(_)) => block.extent().0 == block.extent().1
                    && old(self).dimension() + block.extent().0 > usize::MAX && final(self).list()
                    == old(self).list(),
                Err(_) => false,
            },
    {
        let ghost before = *self;
        let shape: (usize, usize) = block.shape();
        match self.layout.push(shape) {
            Ok(()) => {
                self.blocks.push(block);
                self.size = self.layout.dimension();
                proof {
                    assert forall|k: int| 0 <= k < self.list().len() implies (
                    #[trigger] self.list()[k]).usable() && self.list()[k].extent().0
                        == self.list()[k].extent().1 && self.list()[k].extent().0
                        == self.offsets()[k + 1] - self.offsets()[k] by {
                        if k < before.list().len() {
                            assert(self.list()[k] == before.list()[k]);
                            assert(before.list()[k].usable());
                        }
                    }
                }
                Ok(())
            },
            Err(error) => Err(error),
        }
    }

    fn run<T: Moment, V: Scalar>(&self, time: T, input: &[V], output: &mut [V]) -> (result: Result<()>) where
        O: TimeDependentOperator<T, V>,

        requires
            self.wf::<T, V>(),
        ensures
            final(output)@.len() == old(output)@.len(),
            match result {
                Ok(()) => {
                    &&& input@.len() == self.dimension()
                    &&& old(output)@.len() == self.dimension()
                    &&& gathered(
                        |at: int| self.piece_image(time, input@, at),
                        self.list().len(),
                    ) == Some(final(output)@)
                },
                Err(error) => if input@.len() != self.dimension() || old(output)@.len()
                    != self.dimension() {
                    error is DimensionMismatch
                } else {
                    &&& gathered(
                        |at: int| self.piece_image(time, input@, at),
                        self.list().len(),
                    ) is None
                    &&& exists|at: int| #[trigger] self.piece_refused(time, input@, at, error)
                },
            },
    {
        let dimension: usize = self.size;
        if input.len() != dimension || output.len() != dimension {
            return Err(
                QmbedError::DimensionMismatch(
                    "vectors do not match the dimension of the blocks".to_string(),
                ),
            );
        }
        let ghost pieces = |at: int| self.piece_image(time, input@, at);
        let mut index: usize = 0;
        assert(output@.subrange(0, 0) =~= Seq::<V>::empty());
        while index < self.blocks.len()
            invariant
                self.wf::<T, V>(),
                input@.len() == self.dimension(),
                output@.len() == self.dimension(),
                old(output)@.len() == self.dimension(),
                pieces == (|at: int| self.piece_image(time, input@, at)),
                index <= self.list().len(),
                gathered(pieces, index as nat) == Some(
                    output@.subrange(0, self.offsets()[index as int] as int),
                ),
                forall|k: int|
                    0 <= k < index ==> (#[trigger] self.piece_image(time, input@, k)) is Some,
            decreases self.blocks@.len() - index,
        {
            let from: usize = self.layout.at(index);
            let to: usize = self.layout.at(index + 1);
            proof {
                assert(self.offsets()[index + 1] <= self.offsets()[self.list().len() as int]);
                assert(self.list()[index as int].usable());
            }
            let piece: Vec<V> = cut(input, from, to);
            let mut image: Vec<V> = operator::zeros(to - from);
            let done: Result<()> = self.blocks[index].apply_at(
                time,
                piece.as_slice(),
                image.as_mut_slice(),
            );
            assert(piece@ == piece_of(self.offsets(), input@, index as int));
            match done {
                Ok(()) => {},
                Err(error) => {
                    proof {
                        assert(pieces(index as int) is None);
                        lemma_gathered_none(pieces, index as nat, self.list().len());
                        assert(self.piece_refused(time, input@, index as int, error));
                    }
                    return Err(error);
                },
            }
            let ghost before = output@;
            paste(output, from, &image);
            proof {
                assert(pieces(index as int) == Some(image@));
                assert(output@.subrange(0, to as int) =~= output@.subrange(0, from as int)
                    + output@.subrange(from as int, to as int));
            }
            index = index + 1;
        }
        assert(output@.subrange(0, dimension as int) =~= output@);
        Ok(())
    }
}

impl<T: Moment, V: Scalar, O: TimeDependentOperator<T, V>> TimeDependentOperator<
    T,
    V,
> for DynamicBlockOps<O> {
    open spec fn usable(&self) -> bool {
        self.wf::<T, V>()
    }

    open spec fn extent(&self) -> (usize, usize) {
        (self.dimension(), self.dimension())
    }

    open spec fn maps_at(&self, time: T, input: Seq<V>) -> Option<Seq<V>> {
        gathered(|at: int| self.piece_image(time, input, at), self.list().len())
    }

    open spec fn refuses_at(&self, time: T, input: Seq<V>, error: QmbedError) -> bool {
        exists|at: int| #[trigger] self.piece_refused(time, input, at, error)
    }

    fn shape(&self) -> (shape: (usize, usize)) {
        (self.size, self.size)
    }

    fn apply_at(&self, time: T, input: &[V], output: &mut [V]) -> (result: Result<()>) {
        self.run(time, input, output)
    }
}

impl<O> DynamicBlockOps<O> {
    /// Every block can be stored as a list of entries, and the whole in the format.
    pub open spec fn storable(&self, format: MatrixFormat) -> bool {
        operator::storable(self.dimension(), self.dimension(), format)
    }

    /// The matrix of the direct sum at a moment.
    pub fn materialize<T: Moment, V: Scalar>(&self, time: T, format: MatrixFormat) -> (result: Result<
        Operator<V>,
    >) where O: TimeDependentOperator<T, V>
        requires
            self.wf::<T, V>(),
            self.list().len() > 0,
            self.storable(format),
        ensures
            match result {
                Ok(matrix) => time.settled_time() && exists|
                    parts: Seq<Operator<V>>,
                    offsets: Seq<usize>,
                |
                    {
                        &&& #[trigger] self.evaluated_into(time, parts)
                        &&& #[trigger] arranged(parts, offsets)
                        &&& block_diagonal(&matrix, parts, offsets, format)
                    },
                Err(error) => if !time.settled_time() {
                    error is InvalidOptions
                } else {
                    ||| exists|k: int| #[trigger] self.evaluated_until(time, k, error)
                    ||| error is InvalidCoupling && exists|parts: Seq<Operator<V>>| #[trigger]
                        self.evaluated_into(time, parts) && !finite_blocks(parts)
                },
            },
    {
        if !time.is_settled() {
            return Err(
                QmbedError::InvalidOptions(
                    "dynamic block materialization time must be finite".to_string(),
                ),
            );
        }
        let mut parts: Vec<Operator<V>> = Vec::new();
        while parts.len() < self.blocks.len()
            invariant
                time.settled_time(),
                self.wf::<T, V>(),
                parts@.len() <= self.list().len(),
                forall|k: int|
                    0 <= k < parts@.len() ==> part_evaluated(
                        &self.list()[k],
                        time,
                        #[trigger] parts@[k],
                    ),
            decreases self.blocks@.len() - parts@.len(),
        {
            let ghost k = parts@.len() as int;
            assert(self.list()[k].usable());
            match columns::evaluate(&self.blocks[parts.len()], time, MatrixFormat::MatrixFree) {
                Ok(matrix) => {
                    assert(part_evaluated(&self.list()[k], time, matrix));
                    parts.push(matrix);
                },
                Err(error) => {
                    assert(self.evaluated_until(time, k, error)) by {
                        assert(self.first_evaluated(time, parts@));
                    }
                    return Err(error);
                },
            }
        }
        proof {
            assert(self.evaluated_into(time, parts@));
            let shapes = BlockOps::<Operator<V>>::shapes_of::<V>(parts@);
            assert forall|k: int| 0 <= k < parts@.len() implies (#[trigger] parts@[k]).wf()
                && parts@[k].shape == self.list()[k].extent() by {
                assert(part_evaluated(&self.list()[k], time, parts@[k]));
            }
            assert forall|k: nat| k <= parts@.len() implies #[trigger] block::offset_of(shapes, k)
                == self.offsets()[k as int] by {
                lemma_parts_match(self, parts@, time, k);
            }
            assert(block::offset_of(shapes, parts@.len()) == self.dimension());
            assert forall|k: int| 0 <= k < shapes.len() implies (#[trigger] shapes[k]).0
                == shapes[k].1 by {
                assert(self.list()[k].usable());
                assert(parts@[k].wf());
            }
        }
        let result: Result<Operator<V>> = block_diag_hamiltonian(&parts, format);
        proof {
            match &result {
                Ok(matrix) => {
                    let (offsets, lists) = choose|
                        offsets: Seq<usize>,
                        lists: Seq<Seq<Triplet<V>>>,
                    |
                        {
                            &&& #[trigger] arranged(parts@, offsets)
                            &&& #[trigger] streamed_all(parts@, lists)
                            &&& finite_lists(lists)
                            &&& sums_blocks(matrix, lists, offsets, format)
                        };
                    stored_blocks_stand(matrix, parts@, lists, offsets, format);
                },
                Err(error) => {
                    assert forall|k: int| !#[trigger] streams_until(parts@, k, *error) by {
                        if 0 <= k < parts@.len() {
                            assert(parts@[k].wf());
                        }
                    }
                    let lists = choose|lists: Seq<Seq<Triplet<V>>>| #[trigger]
                        streamed_all(parts@, lists) && !finite_lists(lists);
                    assert(arranged(parts@, self.offsets()));
                    lemma_finite_lists(parts@, lists, self.offsets());
                },
            }
        }
        result
    }

    /// The matrices of the first blocks at a moment.
    pub open spec fn first_evaluated<T: Moment, V: Scalar>(
        &self,
        time: T,
        parts: Seq<Operator<V>>,
    ) -> bool where O: TimeDependentOperator<T, V> {
        forall|k: int|
            0 <= k < parts.len() ==> part_evaluated(&self.list()[k], time, #[trigger] parts[k])
    }

    /// The first blocks have matrices at a moment, and the next one has none, for the reason
    /// that the error gives.
    pub open spec fn evaluated_until<T: Moment, V: Scalar>(
        &self,
        time: T,
        at: int,
        error: QmbedError,
    ) -> bool where O: TimeDependentOperator<T, V> {
        &&& 0 <= at < self.list().len()
        &&& columns::evaluated(
            &self.list()[at],
            time,
            MatrixFormat::MatrixFree,
            Err::<Operator<V>, QmbedError>(error),
        )
        &&& exists|parts: Seq<Operator<V>>|
            parts.len() == at && #[trigger] self.first_evaluated(time, parts)
    }

    /// The matrices of the blocks at a moment.
    pub open spec fn evaluated_into<T: Moment, V: Scalar>(
        &self,
        time: T,
        parts: Seq<Operator<V>>,
    ) -> bool where O: TimeDependentOperator<T, V> {
        &&& parts.len() == self.list().len()
        &&& forall|k: int|
            0 <= k < parts.len() ==> part_evaluated(&self.list()[k], time, #[trigger] parts[k])
    }
}

/// The matrix of a block at a moment.
pub open spec fn part_evaluated<T: Moment, V: Scalar, O: TimeDependentOperator<T, V>>(
    block: &O,
    time: T,
    matrix: Operator<V>,
) -> bool {
    &&& matrix.wf()
    &&& matrix.shape == block.extent()
    &&& columns::evaluated(block, time, MatrixFormat::MatrixFree, Ok(matrix))
}

proof fn lemma_parts_match<T: Moment, V: Scalar, O: TimeDependentOperator<T, V>>(
    sum: &DynamicBlockOps<O>,
    parts: Seq<Operator<V>>,
    time: T,
    k: nat,
)
    requires
        sum.wf::<T, V>(),
        sum.evaluated_into(time, parts),
        k <= parts.len(),
    ensures
        block::offset_of(BlockOps::<Operator<V>>::shapes_of::<V>(parts), k)
            == sum.offsets()[k as int],
    decreases k,
{
    if k > 0 {
        lemma_parts_match(sum, parts, time, (k - 1) as nat);
        assert(sum.list()[k - 1].usable());
        assert(part_evaluated(&sum.list()[k - 1], time, parts[k - 1]));
    }
}

} // verus!
