//! Storage of a matrix by its diagonals.

use vstd::prelude::*;
use crate::compressed;
use crate::scalar::Scalar;
use crate::triplets::Triplet;
use crate::triplets;

verus! {

/// The diagonals of a matrix, each with one value per row; a diagonal is named by row
/// minus column.
#[derive(Clone, Debug)]
pub struct Bands<V> {
    pub offsets: Vec<i128>,
    pub values: Vec<V>,
}

pub open spec fn ascending(offsets: Seq<i128>) -> bool {
    forall|i: int, j: int|
        0 <= i < j < offsets.len() ==> #[trigger] offsets[i] < #[trigger] offsets[j]
}

/// The diagonal that an entry lies on.
pub open spec fn diagonal_of<V>(entry: Triplet<V>) -> int {
    entry.row - entry.column
}

/// One of the listed diagonals.
pub open spec fn lists(offsets: Seq<i128>, offset: int) -> bool {
    exists|i: int| 0 <= i < offsets.len() && #[trigger] offsets[i] == offset
}

/// One of the first entries lies on the diagonal.
pub open spec fn occupied<V>(entries: Seq<Triplet<V>>, upto: int, offset: int) -> bool {
    exists|e: int| 0 <= e < upto && diagonal_of(#[trigger] entries[e]) == offset
}

/// The place of a row's value on a diagonal.
pub open spec fn slot(band: int, rows: int, row: int) -> int {
    band * rows + row
}

pub proof fn lemma_slot(bands: int, rows: int, band: int, row: int)
    requires
        0 <= band < bands,
        0 <= row < rows,
    ensures
        0 <= slot(band, rows, row) < bands * rows,
        0 <= band * rows <= slot(band, rows, row),
{
    assert(band * rows + row < bands * rows) by (nonlinear_arith)
        requires
            0 <= band < bands,
            0 <= row < rows,
    ;
    assert(0 <= band * rows) by (nonlinear_arith)
        requires
            0 <= band,
            0 <= rows,
    ;
}

pub proof fn lemma_slots_apart(rows: int, band: int, row: int, other: int, other_row: int)
    requires
        0 <= band,
        0 <= other,
        0 <= row < rows,
        0 <= other_row < rows,
        slot(band, rows, row) == slot(other, rows, other_row),
    ensures
        band == other,
        row == other_row,
{
    assert(band == other) by (nonlinear_arith)
        requires
            0 <= row < rows,
            0 <= other_row < rows,
            band * rows + row == other * rows + other_row,
    ;
}

impl<V: Scalar> Bands<V> {
    pub open spec fn sound(&self, rows: int, columns: int) -> bool {
        &&& ascending(self.offsets@)
        &&& self.values@.len() == self.offsets@.len() * rows
        &&& forall|i: int|
            0 <= i < self.offsets@.len() ==> -columns < #[trigger] self.offsets@[i] < rows
    }

    /// A diagonal holds zero in the rows in which it runs outside the matrix.
    pub open spec fn blank_outside(&self, rows: int, columns: int) -> bool {
        forall|b: int, row: int|
            0 <= b < self.offsets@.len() && 0 <= row < rows && !(0 <= row - self.offsets@[b]
                < columns) ==> self.values@[#[trigger] slot(b, rows, row)] == V::zero_value()
    }

    /// The matrix has the diagonal through a place.
    pub open spec fn covers(&self, row: int, column: int) -> bool {
        exists|i: int| 0 <= i < self.offsets@.len() && #[trigger] self.offsets@[i] == row - column
    }

    #[verifier::opaque]
    pub open spec fn cell(&self, rows: int, row: int, column: int) -> V {
        if exists|i: int|
            0 <= i < self.offsets@.len() && #[trigger] self.offsets@[i] == row - column {
            let i = choose|i: int|
                0 <= i < self.offsets@.len() && #[trigger] self.offsets@[i] == row - column;
            self.values@[slot(i, rows, row)]
        } else {
            V::zero_value()
        }
    }

    pub proof fn lemma_cell_at(&self, rows: int, columns: int, band: int, row: int, column: int)
        requires
            self.sound(rows, columns),
            0 <= band < self.offsets@.len(),
            self.offsets@[band] == row - column,
        ensures
            self.cell(rows, row, column) == self.values@[slot(band, rows, row)],
    {
        reveal(Bands::cell);
        let i = choose|i: int|
            0 <= i < self.offsets@.len() && #[trigger] self.offsets@[i] == row - column;
        if i < band {
            assert(self.offsets@[i] < self.offsets@[band]);
        } else if band < i {
            assert(self.offsets@[band] < self.offsets@[i]);
        }
    }

    pub proof fn lemma_cell_absent(&self, rows: int, row: int, column: int)
        requires
            !self.covers(row, column),
        ensures
            self.cell(rows, row, column) == V::zero_value(),
    {
        reveal(Bands::cell);
    }

    /// Where a diagonal stands in the list of diagonals.
    pub fn find(&self, offset: i128) -> (found: Option<usize>)
        requires
            ascending(self.offsets@),
        ensures
            match found {
                Some(band) => band < self.offsets@.len() && self.offsets@[band as int] == offset,
                None => forall|i: int|
                    0 <= i < self.offsets@.len() ==> #[trigger] self.offsets@[i] != offset,
            },
    {
        let place: usize = place_for(&self.offsets, offset);
        if place < self.offsets.len() && self.offsets[place] == offset {
            Some(place)
        } else {
            None
        }
    }
}

/// The number of diagonals before the given one.
fn place_for(offsets: &Vec<i128>, offset: i128) -> (place: usize)
    requires
        ascending(offsets@),
    ensures
        place <= offsets@.len(),
        forall|i: int| 0 <= i < place ==> #[trigger] offsets@[i] < offset,
        forall|i: int| place <= i < offsets@.len() ==> #[trigger] offsets@[i] >= offset,
{
    let mut low: usize = 0;
    let mut high: usize = offsets.len();
    while low < high
        invariant
            low <= high <= offsets@.len(),
            ascending(offsets@),
            forall|i: int| 0 <= i < low ==> #[trigger] offsets@[i] < offset,
            forall|i: int| high <= i < offsets@.len() ==> #[trigger] offsets@[i] >= offset,
        decreases high - low,
    {
        let middle: usize = low + (high - low) / 2;
        if offsets[middle] < offset {
            low = middle + 1;
        } else {
            high = middle;
        }
    }
    low
}

/// The diagonals that entries lie on, in ascending order.
pub fn diagonals<V: Scalar>(entries: &Vec<Triplet<V>>) -> (offsets: Vec<i128>)
    ensures
        ascending(offsets@),
        forall|e: int|
                0 <= e < entries@.len() ==> #[trigger] lists(offsets@, diagonal_of(entries@[e])),
        forall|i: int|
                0 <= i < offsets@.len() ==> #[trigger] occupied(entries@, entries@.len() as int, offsets@[i] as int),
{
    let mut offsets: Vec<i128> = Vec::new();
    let mut position: usize = 0;
    while position < entries.len()
        invariant
            position <= entries@.len(),
            ascending(offsets@),
            forall|e: int|
                0 <= e < position ==> #[trigger] lists(offsets@, diagonal_of(entries@[e])),
            forall|i: int|
                0 <= i < offsets@.len() ==> #[trigger] occupied(entries@, position as int, offsets@[i] as int),
        decreases entries@.len() - position,
    {
        let offset: i128 = entries[position].row as i128 - entries[position].column as i128;
        let place: usize = place_for(&offsets, offset);
        let ghost before = offsets@;
        if place < offsets.len() && offsets[place] == offset {
            assert(offsets@[place as int] == diagonal_of(entries@[position as int]));
        } else {
            offsets.insert(place, offset);
            assert(offsets@[place as int] == diagonal_of(entries@[position as int]));
        }
        proof {
            assert(lists(offsets@, diagonal_of(entries@[position as int])));
            assert forall|e: int| 0 <= e < position + 1 implies #[trigger] lists(
                offsets@,
                diagonal_of(entries@[e]),
            ) by {
                if e < position {
                    let d = diagonal_of(entries@[e]);
                    assert(lists(before, d));
                    let i = choose|i: int| 0 <= i < before.len() && #[trigger] before[i] == d;
                    if offsets@.len() == before.len() || i < place {
                        assert(offsets@[i] == before[i]);
                    } else {
                        assert(offsets@[i + 1] == before[i]);
                    }
                }
            }
            assert forall|i: int| 0 <= i < offsets@.len() implies #[trigger] occupied(
                entries@,
                position + 1,
                offsets@[i] as int,
            ) by {
                let d = offsets@[i] as int;
                if i == place {
                    assert(diagonal_of(entries@[position as int]) == d);
                } else {
                    if offsets@.len() == before.len() || i < place {
                        assert(before[i] == d);
                        assert(occupied(entries@, position as int, before[i] as int));
                    } else {
                        assert(before[i - 1] == d);
                        assert(occupied(entries@, position as int, before[i - 1] as int));
                    }
                    let e = choose|e: int|
                        0 <= e < position && diagonal_of(#[trigger] entries@[e]) == d;
                    assert(diagonal_of(entries@[e]) == d);
                }
            }
        }
        position = position + 1;
    }
    offsets
}

/// Stores entries by diagonals.
pub fn store_bands<V: Scalar>(entries: &Vec<Triplet<V>>, rows: usize, columns: usize) -> (bands:
    Bands<V>)
    requires
        triplets::strictly_ordered(entries@, false),
        triplets::fits(entries@, rows as int, columns as int),
    ensures
        bands.sound(rows as int, columns as int),
        forall|row: int, column: int|
            0 <= row < rows && 0 <= column < columns ==> #[trigger] bands.cell(
                rows as int,
                row,
                column,
            ) == compressed::list_cell(entries@, row, column),
        forall|i: int|
                0 <= i < bands.offsets@.len() ==> #[trigger] occupied(entries@, entries@.len() as int, bands.offsets@[i] as int),
        bands.blank_outside(rows as int, columns as int),
{
    let offsets: Vec<i128> = diagonals(entries);
    let mut values: Vec<V> = Vec::new();
    let mut band: usize = 0;
    assert(0 * rows == 0);
    while band < offsets.len()
        invariant
            band <= offsets@.len(),
            values@.len() == band * rows,
            forall|s: int| 0 <= s < values@.len() ==> #[trigger] values@[s] == V::zero_value(),
        decreases offsets@.len() - band,
    {
        let mut row: usize = 0;
        while row < rows
            invariant
                row <= rows,
                values@.len() == band * rows + row,
                forall|s: int| 0 <= s < values@.len() ==> #[trigger] values@[s] == V::zero_value(),
            decreases rows - row,
        {
            values.push(V::zero());
            row = row + 1;
        }
        assert((band + 1) * rows == band * rows + rows) by (nonlinear_arith);
        band = band + 1;
    }
    let mut bands: Bands<V> = Bands { offsets, values };
    let total: usize = bands.values.len();
    let mut position: usize = 0;
    proof {
        assert forall|i: int| 0 <= i < offsets@.len() implies -columns < #[trigger] offsets@[i]
            < rows by {
            assert(occupied(entries@, entries@.len() as int, offsets@[i] as int));
            let e = choose|e: int|
                0 <= e < entries@.len() && diagonal_of(#[trigger] entries@[e]) == offsets@[i];
            assert(entries@[e].row < rows);
        }
        assert forall|b: int, row: int|
            0 <= b < bands.offsets@.len() && 0 <= row < rows implies bands.values@[#[trigger] slot(
            b,
            rows as int,
            row,
        )] == V::zero_value() by {
            lemma_slot(bands.offsets@.len() as int, rows as int, b, row);
        }
    }
    while position < entries.len()
        invariant
            position <= entries@.len(),
            total == bands.values@.len(),
            bands.offsets@ == offsets@,
            bands.sound(rows as int, columns as int),
            triplets::strictly_ordered(entries@, false),
            triplets::fits(entries@, rows as int, columns as int),
            forall|e: int|
                0 <= e < entries@.len() ==> #[trigger] lists(offsets@, diagonal_of(entries@[e])),
            forall|e: int, b: int|
                0 <= e < position && 0 <= b < bands.offsets@.len() && bands.offsets@[b]
                    == diagonal_of(entries@[e]) ==> bands.values@[#[trigger] slot(
                    b,
                    rows as int,
                    (#[trigger] entries@[e]).row as int,
                )] == entries@[e].value,
            forall|b: int, row: int|
                0 <= b < bands.offsets@.len() && 0 <= row < rows && (forall|e: int|
                    0 <= e < position ==> !((#[trigger] entries@[e]).row == row && diagonal_of(
                        entries@[e],
                    ) == bands.offsets@[b])) ==> bands.values@[#[trigger] slot(
                    b,
                    rows as int,
                    row,
                )] == V::zero_value(),
        decreases entries@.len() - position,
    {
        let entry: Triplet<V> = entries[position];
        let offset: i128 = entry.row as i128 - entry.column as i128;
        let found: Option<usize> = bands.find(offset);
        let ghost before = bands.values@;
        if let Some(band) = found {
            proof {
                lemma_slot(bands.offsets@.len() as int, rows as int, band as int, entry.row as int);
            }
            let place: usize = band * rows + entry.row;
            bands.values.set(place, entry.value);
            proof {
                assert(place == slot(band as int, rows as int, entry.row as int));
                assert forall|e: int, b: int|
                    0 <= e < position + 1 && 0 <= b < bands.offsets@.len() && bands.offsets@[b]
                        == diagonal_of(entries@[e]) implies bands.values@[#[trigger] slot(
                    b,
                    rows as int,
                    (#[trigger] entries@[e]).row as int,
                )] == entries@[e].value by {
                    let s = slot(b, rows as int, entries@[e].row as int);
                    lemma_slot(
                        bands.offsets@.len() as int,
                        rows as int,
                        b,
                        entries@[e].row as int,
                    );
                    if s == place {
                        lemma_slots_apart(
                            rows as int,
                            b,
                            entries@[e].row as int,
                            band as int,
                            entry.row as int,
                        );
                        if e < position {
                            assert(triplets::comes_before(
                                entries@[e],
                                entries@[position as int],
                                false,
                            ));
                        }
                    } else {
                        assert(e < position) by {
                            if e == position {
                                if b < band {
                                    assert(bands.offsets@[b] < bands.offsets@[band as int]);
                                } else if band < b {
                                    assert(bands.offsets@[band as int] < bands.offsets@[b]);
                                }
                            }
                        }
                    }
                }
                assert forall|b: int, row: int|
                    0 <= b < bands.offsets@.len() && 0 <= row < rows && (forall|e: int|
                        0 <= e < position + 1 ==> !((#[trigger] entries@[e]).row == row
                            && diagonal_of(entries@[e]) == bands.offsets@[b])) implies bands.values@[#[trigger] slot(
                    b,
                    rows as int,
                    row,
                )] == V::zero_value() by {
                    lemma_slot(bands.offsets@.len() as int, rows as int, b, row);
                    let s = slot(b, rows as int, row);
                    if s == place {
                        lemma_slots_apart(
                            rows as int,
                            b,
                            row,
                            band as int,
                            entry.row as int,
                        );
                        assert(entries@[position as int].row == row);
                    }
                    assert(before[s] == V::zero_value());
                }
            }
        } else {
            assert(false) by {
                assert(lists(offsets@, diagonal_of(entries@[position as int])));
                let i = choose|i: int|
                    0 <= i < offsets@.len() && #[trigger] offsets@[i] == offset;
                assert(bands.offsets@[i] == offset);
            }
        }
        position = position + 1;
    }
    proof {
        assert forall|row: int, column: int|
            0 <= row < rows && 0 <= column < columns implies #[trigger] bands.cell(
            rows as int,
            row,
            column,
        ) == compressed::list_cell(entries@, row, column) by {
            lemma_band_cell(&bands, entries@, rows as int, columns as int, row, column);
        }
        assert forall|b: int, row: int|
            0 <= b < bands.offsets@.len() && 0 <= row < rows && !(0 <= row - bands.offsets@[b]
                < columns) implies bands.values@[#[trigger] slot(b, rows as int, row)]
            == V::zero_value() by {
            assert forall|e: int| 0 <= e < entries@.len() implies !((#[trigger] entries@[e]).row
                == row && diagonal_of(entries@[e]) == bands.offsets@[b]) by {}
        }
    }
    bands
}

proof fn lemma_band_cell<V: Scalar>(
    bands: &Bands<V>,
    entries: Seq<Triplet<V>>,
    rows: int,
    columns: int,
    row: int,
    column: int,
)
    requires
        bands.sound(rows, columns),
        triplets::strictly_ordered(entries, false),
        0 <= row < rows,
        0 <= column < columns,
        forall|e: int|
                0 <= e < entries.len() ==> #[trigger] lists(bands.offsets@, diagonal_of(entries[e])),
        forall|e: int, b: int|
            0 <= e < entries.len() && 0 <= b < bands.offsets@.len() && bands.offsets@[b]
                == diagonal_of(entries[e]) ==> bands.values@[#[trigger] slot(
                b,
                rows,
                (#[trigger] entries[e]).row as int,
            )] == entries[e].value,
        forall|b: int, r: int|
            0 <= b < bands.offsets@.len() && 0 <= r < rows && (forall|e: int|
                0 <= e < entries.len() ==> !((#[trigger] entries[e]).row == r && diagonal_of(
                    entries[e],
                ) == bands.offsets@[b])) ==> bands.values@[#[trigger] slot(b, rows, r)]
                == V::zero_value(),
    ensures
        bands.cell(rows, row, column) == compressed::list_cell(entries, row, column),
{
    if exists|e: int| 0 <= e < entries.len() && triplets::stands_at(#[trigger] entries[e], row, column) {
        let e = choose|e: int|
            0 <= e < entries.len() && triplets::stands_at(#[trigger] entries[e], row, column);
        compressed::lemma_list_cell_at(entries, false, e);
        assert(lists(bands.offsets@, diagonal_of(entries[e])));
        let b = choose|i: int|
            0 <= i < bands.offsets@.len() && #[trigger] bands.offsets@[i] == diagonal_of(
                entries[e],
            );
        bands.lemma_cell_at(rows, columns, b, row, column);
        assert(bands.values@[slot(b, rows, entries[e].row as int)] == entries[e].value);
    } else {
        compressed::lemma_list_cell_absent(entries, row, column);
        if bands.covers(row, column) {
            let b = choose|i: int|
                0 <= i < bands.offsets@.len() && #[trigger] bands.offsets@[i] == row - column;
            bands.lemma_cell_at(rows, columns, b, row, column);
            assert forall|e: int| 0 <= e < entries.len() implies !((#[trigger] entries[e]).row
                == row && diagonal_of(entries[e]) == bands.offsets@[b]) by {
                assert(!triplets::stands_at(entries[e], row, column));
            }
            assert(bands.values@[slot(b, rows, row)] == V::zero_value());
        } else {
            bands.lemma_cell_absent(rows, row, column);
        }
    }
}

} // verus!
