//! Linear maps between vectors, stored or not.

use vstd::prelude::*;
use crate::action;
use crate::algebra::Change;
use crate::algebra;
use crate::error::{QmbedError, Result};
use crate::error;
use crate::operator::{MatrixFormat, Operator};
use crate::operator;
use crate::projector::BasisProjector;
use crate::projector;
use crate::scalar::Scalar;
use crate::triplets::Triplet;
use crate::triplets;

verus! {

/// A linear map from vectors of one length to vectors of another.
/// What an implementation leaves out of the specification is not specified.
pub trait LinearOperator<V: Scalar> {
    open spec fn usable(&self) -> bool {
        arbitrary()
    }

    /// The numbers of rows and columns.
    open spec fn extent(&self) -> (usize, usize) {
        arbitrary()
    }

    /// How the map is stored.
    open spec fn stored_as(&self) -> MatrixFormat {
        arbitrary()
    }

    /// The image of a vector, or nothing where the map refuses it.
    open spec fn maps(&self, input: Seq<V>) -> Option<Seq<V>> {
        arbitrary()
    }

    /// The image under the transpose, or nothing where the map refuses the vector.
    open spec fn maps_back(&self, input: Seq<V>) -> Option<Seq<V>> {
        arbitrary()
    }

    /// The entries that the map may hand out as the ones that it keeps stored, nothing where
    /// it keeps none.
    open spec fn offers(&self, entries: Option<Seq<Triplet<V>>>) -> bool {
        arbitrary()
    }

    /// The map may refuse a vector with the error.
    open spec fn refuses(&self, input: Seq<V>, error: QmbedError) -> bool {
        arbitrary()
    }

    /// The transpose may refuse a vector with the error.
    open spec fn refuses_back(&self, input: Seq<V>, error: QmbedError) -> bool {
        arbitrary()
    }

    /// The map may fail with the error to hand out what it keeps stored.
    open spec fn withholds(&self, error: QmbedError) -> bool {
        arbitrary()
    }

    fn shape(&self) -> (shape: (usize, usize))
        ensures
            shape == self.extent(),
    ;

    /// The entries that the map keeps stored, nothing where it keeps none.
    fn stored_triplets(&self) -> (result: Result<Option<Vec<Triplet<V>>>>)
        requires
            self.usable(),
        ensures
            match result {
                Ok(Some(list)) => self.offers(Some(list@)) && triplets::fits(
                    list@,
                    self.extent().0 as int,
                    self.extent().1 as int,
                ),
                Ok(None) => self.offers(None),
                Err(error) => self.withholds(error),
            },
    ;

    fn format(&self) -> (format: MatrixFormat)
        ensures
            format == self.stored_as(),
    ;

    /// Replaces the output by the image of the input.
    fn apply(&self, input: &[V], output: &mut [V]) -> (result: Result<()>)
        requires
            self.usable(),
        ensures
            final(output)@.len() == old(output)@.len(),
            match result {
                Ok(()) => {
                    &&& input@.len() == self.extent().1
                    &&& old(output)@.len() == self.extent().0
                    &&& self.maps(input@) == Some(final(output)@)
                },
                Err(error) => if input@.len() != self.extent().1 || old(output)@.len()
                    != self.extent().0 {
                    error is DimensionMismatch
                } else {
                    self.maps(input@) is None && self.refuses(input@, error)
                },
            },
    ;

    /// Replaces the output by the image of the input under the transpose.
    fn apply_transpose(&self, input: &[V], output: &mut [V]) -> (result: Result<()>)
        requires
            self.usable(),
        ensures
            final(output)@.len() == old(output)@.len(),
            match result {
                Ok(()) => {
                    &&& input@.len() == self.extent().0
                    &&& old(output)@.len() == self.extent().1
                    &&& self.maps_back(input@) == Some(final(output)@)
                },
                Err(error) => if input@.len() != self.extent().0 || old(output)@.len()
                    != self.extent().1 {
                    error is DimensionMismatch
                } else {
                    self.maps_back(input@) is None && self.refuses_back(input@, error)
                },
            },
    ;
}

/// The image under the conjugate transpose.
pub open spec fn adjoint_image<V: Scalar, O: LinearOperator<V>>(
    operator: &O,
    input: Seq<V>,
) -> Option<Seq<V>> {
    match operator.maps_back(action::mirrored(input)) {
        Some(output) => Some(action::mirrored(output)),
        None => None,
    }
}

/// The image under the conjugated map.
pub open spec fn conjugated_image<V: Scalar, O: LinearOperator<V>>(
    operator: &O,
    input: Seq<V>,
) -> Option<Seq<V>> {
    match operator.maps(action::mirrored(input)) {
        Some(output) => Some(action::mirrored(output)),
        None => None,
    }
}

/// Replaces the output by the image of the input under the conjugate transpose.
pub fn apply_adjoint<V: Scalar, O: LinearOperator<V>>(
    operator: &O,
    input: &[V],
    output: &mut [V],
) -> (result: Result<()>)
    requires
        operator.usable(),
    ensures
        final(output)@.len() == old(output)@.len(),
        match result {
            Ok(()) => {
                &&& input@.len() == operator.extent().0
                &&& old(output)@.len() == operator.extent().1
                &&& adjoint_image(operator, input@) == Some(final(output)@)
            },
            Err(error) => if input@.len() != operator.extent().0 || old(output)@.len()
                != operator.extent().1 {
                error is DimensionMismatch
            } else {
                adjoint_image(operator, input@) is None && operator.refuses_back(
                    action::mirrored(input@),
                    error,
                )
            },
        },
{
    let mirror: Vec<V> = action::conjugates(input);
    match operator.apply_transpose(mirror.as_slice(), output) {
        Ok(()) => {},
        Err(error) => {
            return Err(error);
        },
    }
    action::conjugate_all(output);
    Ok(())
}

/// The output is the image of the input.
pub open spec fn imaged<V: Scalar, O: LinearOperator<V>>(
    operator: &O,
    input: Seq<V>,
    output: Seq<V>,
) -> bool {
    input.len() == operator.extent().1 && operator.maps(input) == Some(output)
}

/// The output is the image of the input under the transpose.
pub open spec fn imaged_back<V: Scalar, O: LinearOperator<V>>(
    operator: &O,
    input: Seq<V>,
    output: Seq<V>,
) -> bool {
    input.len() == operator.extent().0 && operator.maps_back(input) == Some(output)
}

/// The sum of products of components, from left to right, beginning with zero.
pub open spec fn dot<V: Scalar>(left: Seq<V>, right: Seq<V>, upto: nat) -> V
    decreases upto,
{
    if upto == 0 {
        V::zero_value()
    } else {
        dot(left, right, (upto - 1) as nat).sum(left[upto - 1].product(right[upto - 1]))
    }
}

/// The components of the image under the transpose, each from the image of a unit
/// vector.
pub open spec fn column_products<V: Scalar, O: LinearOperator<V>>(
    operator: &O,
    input: Seq<V>,
    output: Seq<V>,
) -> bool {
    &&& output.len() == operator.extent().1
    &&& forall|column: int|
        0 <= column < output.len() ==> column_product(
            operator,
            input,
            column,
            #[trigger] output[column],
        )
}

/// The number is the product of the image of a unit vector with the input.
pub open spec fn column_product<V: Scalar, O: LinearOperator<V>>(
    operator: &O,
    input: Seq<V>,
    column: int,
    number: V,
) -> bool {
    let image = operator.maps(projector::unit(operator.extent().1 as nat, column));
    image is Some && number == dot(image->0, input, operator.extent().0 as nat)
}

/// Some unit vector is refused.
pub open spec fn refuses_unit<V: Scalar, O: LinearOperator<V>>(operator: &O) -> bool {
    exists|column: int|
        0 <= column < operator.extent().1 && (#[trigger] operator.maps(
            projector::unit(operator.extent().1 as nat, column),
        )) is None
}

/// The first unit vector that is refused is refused with the error.
pub open spec fn refuses_unit_with<V: Scalar, O: LinearOperator<V>>(
    operator: &O,
    error: QmbedError,
) -> bool {
    exists|column: int| #[trigger] refuses_first(operator, column, error)
}

/// The unit vector is refused with the error, and those before it are not refused.
pub open spec fn refuses_first<V: Scalar, O: LinearOperator<V>>(
    operator: &O,
    column: int,
    error: QmbedError,
) -> bool {
    let count = operator.extent().1;
    &&& 0 <= column < count
    &&& operator.maps(projector::unit(count as nat, column)) is None
    &&& operator.refuses(projector::unit(count as nat, column), error)
    &&& forall|before: int|
        0 <= before < column ==> (#[trigger] operator.maps(
            projector::unit(count as nat, before),
        )) is Some
}

/// The image under the transpose of a map that only knows its images of vectors.
pub fn transpose_by_columns<V: Scalar, O: LinearOperator<V>>(
    operator: &O,
    input: &[V],
    output: &mut [V],
) -> (result: Result<()>)
    requires
        operator.usable(),
    ensures
        final(output)@.len() == old(output)@.len(),
        match result {
            Ok(()) => {
                &&& input@.len() == operator.extent().0
                &&& column_products(operator, input@, final(output)@)
            },
            Err(error) => if input@.len() != operator.extent().0 || old(output)@.len()
                != operator.extent().1 {
                error is DimensionMismatch
            } else {
                refuses_unit_with(operator, error)
            },
        },
{
    let (rows, columns): (usize, usize) = operator.shape();
    if input.len() != rows || output.len() != columns {
        return Err(
            QmbedError::DimensionMismatch(
                error::weave(
                    vec!["transpose of shape (", ", ", ") requires input length ", " and output length "],
                    vec![rows, columns, rows, columns],
                ),
            ),
        );
    }
    let mut image: Vec<V> = operator::zeros(rows);
    let mut column: usize = 0;
    while column < columns
        invariant
            operator.usable(),
            operator.extent() == (rows, columns),
            input@.len() == rows,
            output@.len() == columns,
            old(output)@.len() == columns,
            image@.len() == rows,
            column <= columns,
            forall|c: int|
                0 <= c < column ==> column_product(operator, input@, c, #[trigger] output@[c]),
            forall|c: int|
                0 <= c < column ==> (#[trigger] operator.maps(
                    projector::unit(columns as nat, c),
                )) is Some,
        decreases columns - column,
    {
        let mut start: Vec<V> = operator::zeros(columns);
        start.set(column, V::one());
        assert(start@ =~= projector::unit(columns as nat, column as int));
        match operator.apply(start.as_slice(), image.as_mut_slice()) {
            Ok(()) => {},
            Err(error) => {
                assert(refuses_first(operator, column as int, error));
                return Err(error);
            },
        }
        let mut sum: V = V::zero();
        let mut row: usize = 0;
        while row < rows
            invariant
                row <= rows,
                image@.len() == rows,
                input@.len() == rows,
                sum == dot(image@, input@, row as nat),
            decreases rows - row,
        {
            sum = sum.plus(image[row].times(input[row]));
            row = row + 1;
        }
        assert(column_product(operator, input@, column as int, sum));
        output[column] = sum;
        column = column + 1;
    }
    Ok(())
}

impl<V: Scalar> LinearOperator<V> for Operator<V> {
    open spec fn usable(&self) -> bool {
        self.wf()
    }

    open spec fn extent(&self) -> (usize, usize) {
        self.shape
    }

    open spec fn maps(&self, input: Seq<V>) -> Option<Seq<V>> {
        Some(self.image(input))
    }

    open spec fn maps_back(&self, input: Seq<V>) -> Option<Seq<V>> {
        Some(self.transposed_image(input))
    }

    open spec fn stored_as(&self) -> MatrixFormat {
        self.format
    }

    open spec fn offers(&self, entries: Option<Seq<Triplet<V>>>) -> bool {
        entries matches Some(list) && self.spelled(list)
    }

    open spec fn refuses(&self, input: Seq<V>, error: QmbedError) -> bool {
        false
    }

    open spec fn refuses_back(&self, input: Seq<V>, error: QmbedError) -> bool {
        false
    }

    open spec fn withholds(&self, error: QmbedError) -> bool {
        false
    }

    fn stored_triplets(&self) -> (result: Result<Option<Vec<Triplet<V>>>>) {
        Ok(Some(self.triplets()))
    }

    fn shape(&self) -> (shape: (usize, usize)) {
        self.shape
    }

    fn format(&self) -> (format: MatrixFormat) {
        self.format
    }

    fn apply(&self, input: &[V], output: &mut [V]) -> (result: Result<()>) {
        self.apply(input, output)
    }

    fn apply_transpose(&self, input: &[V], output: &mut [V]) -> (result: Result<()>) {
        self.apply_transpose(input, output)
    }
}

impl<V: Scalar> LinearOperator<V> for BasisProjector<V> {
    open spec fn usable(&self) -> bool {
        self.wf()
    }

    open spec fn extent(&self) -> (usize, usize) {
        (self.rows(), self.columns())
    }

    open spec fn maps(&self, input: Seq<V>) -> Option<Seq<V>> {
        Some(self.lift(input))
    }

    open spec fn maps_back(&self, input: Seq<V>) -> Option<Seq<V>> {
        Some(self.transposed(input))
    }

    open spec fn stored_as(&self) -> MatrixFormat {
        MatrixFormat::Csc
    }

    open spec fn offers(&self, entries: Option<Seq<Triplet<V>>>) -> bool {
        entries == Some(self.entries())
    }

    open spec fn refuses(&self, input: Seq<V>, error: QmbedError) -> bool {
        false
    }

    open spec fn refuses_back(&self, input: Seq<V>, error: QmbedError) -> bool {
        false
    }

    open spec fn withholds(&self, error: QmbedError) -> bool {
        false
    }

    fn stored_triplets(&self) -> (result: Result<Option<Vec<Triplet<V>>>>) {
        Ok(Some(self.stored_entries()))
    }

    fn shape(&self) -> (shape: (usize, usize)) {
        (self.source_dimension(), self.reduced_dimension())
    }

    fn format(&self) -> (format: MatrixFormat) {
        MatrixFormat::Csc
    }

    fn apply(&self, input: &[V], output: &mut [V]) -> (result: Result<()>) {
        self.apply(input, output)
    }

    fn apply_transpose(&self, input: &[V], output: &mut [V]) -> (result: Result<()>) {
        self.apply_transpose(input, output)
    }
}

/// The entries of a map, mirrored at the diagonal or not, their values changed.
pub open spec fn moved_list<V: Scalar>(
    list: Seq<Triplet<V>>,
    transposed: bool,
    change: Change<V>,
) -> Seq<Triplet<V>> {
    Seq::new(list.len(), |i: int| algebra::moved(list[i], transposed, change))
}

/// What a view of a map may hand out.
pub open spec fn offers_moved<V: Scalar, O: LinearOperator<V>>(
    operator: &O,
    transposed: bool,
    change: Change<V>,
    entries: Option<Seq<Triplet<V>>>,
) -> bool {
    match entries {
        Some(list) => exists|inner: Seq<Triplet<V>>| #[trigger]
            operator.offers(Some(inner)) && list == moved_list(inner, transposed, change),
        None => operator.offers(None),
    }
}

/// Hands out the entries of a map, mirrored at the diagonal or not.
fn moved_triplets<V: Scalar, O: LinearOperator<V>>(
    operator: &O,
    transposed: bool,
    change: Change<V>,
) -> (result: Result<Option<Vec<Triplet<V>>>>)
    requires
        operator.usable(),
    ensures
        match result {
            Ok(Some(list)) => offers_moved(operator, transposed, change, Some(list@))
                && triplets::fits(
                list@,
                (if transposed { operator.extent().1 } else { operator.extent().0 }) as int,
                (if transposed { operator.extent().0 } else { operator.extent().1 }) as int,
            ),
            Ok(None) => offers_moved(operator, transposed, change, None),
            Err(error) => operator.withholds(error),
        },
{
    match operator.stored_triplets() {
        Ok(Some(inner)) => {
            let mut list: Vec<Triplet<V>> = Vec::new();
            algebra::append_moved(&inner, transposed, change, &mut list);
            proof {
                assert forall|i: int| 0 <= i < inner@.len() implies #[trigger] list@[i]
                    == algebra::moved(inner@[i], transposed, change) by {
                    assert(list@[0 + i] == algebra::moved(inner@[i], transposed, change));
                }
                assert(list@ =~= moved_list(inner@, transposed, change));
            }
            Ok(Some(list))
        },
        Ok(None) => Ok(None),
        Err(error) => Err(error),
    }
}

/// The transpose of a map.
#[derive(Debug)]
pub struct TransposedLinearOperator<O> {
    pub operator: O,
}

impl<O> TransposedLinearOperator<O> {
    pub fn new(operator: O) -> (view: Self)
        ensures
            view.operator == operator,
    {
        TransposedLinearOperator { operator }
    }
}

impl<V: Scalar, O: LinearOperator<V>> LinearOperator<V> for TransposedLinearOperator<O> {
    open spec fn usable(&self) -> bool {
        self.operator.usable()
    }

    open spec fn extent(&self) -> (usize, usize) {
        (self.operator.extent().1, self.operator.extent().0)
    }

    open spec fn maps(&self, input: Seq<V>) -> Option<Seq<V>> {
        self.operator.maps_back(input)
    }

    open spec fn maps_back(&self, input: Seq<V>) -> Option<Seq<V>> {
        self.operator.maps(input)
    }

    open spec fn stored_as(&self) -> MatrixFormat {
        MatrixFormat::MatrixFree
    }

    open spec fn offers(&self, entries: Option<Seq<Triplet<V>>>) -> bool {
        offers_moved(&self.operator, true, Change::Keep, entries)
    }

    open spec fn refuses(&self, input: Seq<V>, error: QmbedError) -> bool {
        self.operator.refuses_back(input, error)
    }

    open spec fn refuses_back(&self, input: Seq<V>, error: QmbedError) -> bool {
        self.operator.refuses(input, error)
    }

    open spec fn withholds(&self, error: QmbedError) -> bool {
        self.operator.withholds(error)
    }

    fn stored_triplets(&self) -> (result: Result<Option<Vec<Triplet<V>>>>) {
        moved_triplets(&self.operator, true, Change::Keep)
    }

    fn shape(&self) -> (shape: (usize, usize)) {
        let (rows, columns): (usize, usize) = self.operator.shape();
        (columns, rows)
    }

    fn format(&self) -> (format: MatrixFormat) {
        MatrixFormat::MatrixFree
    }

    fn apply(&self, input: &[V], output: &mut [V]) -> (result: Result<()>) {
        self.operator.apply_transpose(input, output)
    }

    fn apply_transpose(&self, input: &[V], output: &mut [V]) -> (result: Result<()>) {
        self.operator.apply(input, output)
    }
}

/// The elementwise conjugate of a map.
#[derive(Debug)]
pub struct ConjugatedLinearOperator<O> {
    pub operator: O,
}

impl<O> ConjugatedLinearOperator<O> {
    pub fn new(operator: O) -> (view: Self)
        ensures
            view.operator == operator,
    {
        ConjugatedLinearOperator { operator }
    }
}

impl<V: Scalar, O: LinearOperator<V>> LinearOperator<V> for ConjugatedLinearOperator<O> {
    open spec fn usable(&self) -> bool {
        self.operator.usable()
    }

    open spec fn extent(&self) -> (usize, usize) {
        self.operator.extent()
    }

    open spec fn maps(&self, input: Seq<V>) -> Option<Seq<V>> {
        conjugated_image(&self.operator, input)
    }

    open spec fn maps_back(&self, input: Seq<V>) -> Option<Seq<V>> {
        adjoint_image(&self.operator, input)
    }

    open spec fn stored_as(&self) -> MatrixFormat {
        MatrixFormat::MatrixFree
    }

    open spec fn offers(&self, entries: Option<Seq<Triplet<V>>>) -> bool {
        offers_moved(&self.operator, false, Change::Conjugate, entries)
    }

    open spec fn refuses(&self, input: Seq<V>, error: QmbedError) -> bool {
        self.operator.refuses(action::mirrored(input), error)
    }

    open spec fn refuses_back(&self, input: Seq<V>, error: QmbedError) -> bool {
        self.operator.refuses_back(action::mirrored(input), error)
    }

    open spec fn withholds(&self, error: QmbedError) -> bool {
        self.operator.withholds(error)
    }

    fn stored_triplets(&self) -> (result: Result<Option<Vec<Triplet<V>>>>) {
        moved_triplets(&self.operator, false, Change::Conjugate)
    }

    fn shape(&self) -> (shape: (usize, usize)) {
        self.operator.shape()
    }

    fn format(&self) -> (format: MatrixFormat) {
        MatrixFormat::MatrixFree
    }

    fn apply(&self, input: &[V], output: &mut [V]) -> (result: Result<()>) {
        let mirror: Vec<V> = action::conjugates(input);
        match self.operator.apply(mirror.as_slice(), output) {
            Ok(()) => {},
            Err(error) => {
                return Err(error);
            },
        }
        action::conjugate_all(output);
        Ok(())
    }

    fn apply_transpose(&self, input: &[V], output: &mut [V]) -> (result: Result<()>) {
        apply_adjoint(&self.operator, input, output)
    }
}

/// The conjugate transpose of a map.
#[derive(Debug)]
pub struct AdjointLinearOperator<O> {
    pub operator: O,
}

impl<O> AdjointLinearOperator<O> {
    pub fn new(operator: O) -> (view: Self)
        ensures
            view.operator == operator,
    {
        AdjointLinearOperator { operator }
    }
}

impl<V: Scalar, O: LinearOperator<V>> LinearOperator<V> for AdjointLinearOperator<O> {
    open spec fn usable(&self) -> bool {
        self.operator.usable()
    }

    open spec fn extent(&self) -> (usize, usize) {
        (self.operator.extent().1, self.operator.extent().0)
    }

    open spec fn maps(&self, input: Seq<V>) -> Option<Seq<V>> {
        adjoint_image(&self.operator, input)
    }

    open spec fn maps_back(&self, input: Seq<V>) -> Option<Seq<V>> {
        conjugated_image(&self.operator, input)
    }

    open spec fn stored_as(&self) -> MatrixFormat {
        MatrixFormat::MatrixFree
    }

    open spec fn offers(&self, entries: Option<Seq<Triplet<V>>>) -> bool {
        offers_moved(&self.operator, true, Change::Conjugate, entries)
    }

    open spec fn refuses(&self, input: Seq<V>, error: QmbedError) -> bool {
        self.operator.refuses_back(action::mirrored(input), error)
    }

    open spec fn refuses_back(&self, input: Seq<V>, error: QmbedError) -> bool {
        self.operator.refuses(action::mirrored(input), error)
    }

    open spec fn withholds(&self, error: QmbedError) -> bool {
        self.operator.withholds(error)
    }

    fn stored_triplets(&self) -> (result: Result<Option<Vec<Triplet<V>>>>) {
        moved_triplets(&self.operator, true, Change::Conjugate)
    }

    fn shape(&self) -> (shape: (usize, usize)) {
        let (rows, columns): (usize, usize) = self.operator.shape();
        (columns, rows)
    }

    fn format(&self) -> (format: MatrixFormat) {
        MatrixFormat::MatrixFree
    }

    fn apply(&self, input: &[V], output: &mut [V]) -> (result: Result<()>) {
        apply_adjoint(&self.operator, input, output)
    }

    fn apply_transpose(&self, input: &[V], output: &mut [V]) -> (result: Result<()>) {
        let mirror: Vec<V> = action::conjugates(input);
        match self.operator.apply(mirror.as_slice(), output) {
            Ok(()) => {},
            Err(error) => {
                return Err(error);
            },
        }
        action::conjugate_all(output);
        Ok(())
    }
}

/// Transposing twice gives the map back, and the transpose of the conjugate is the
/// conjugate transpose.
pub proof fn views_compose<V: Scalar, O: LinearOperator<V>>(operator: O, input: Seq<V>)
    ensures
        ({
            let twice = TransposedLinearOperator {
                operator: TransposedLinearOperator { operator },
            };
            twice.maps(input) == operator.maps(input) && twice.maps_back(input)
                == operator.maps_back(input) && twice.extent() == operator.extent()
        }),
        ({
            let left = TransposedLinearOperator {
                operator: ConjugatedLinearOperator { operator },
            };
            let right = AdjointLinearOperator { operator };
            left.maps(input) == right.maps(input) && left.maps_back(input) == right.maps_back(
                input,
            ) && left.extent() == right.extent()
        }),
{
}

/// A vector after a scaled product: the product alone, or added to what was there.
pub open spec fn blended<V: Scalar>(
    before: Seq<V>,
    image: Seq<V>,
    coefficient: V,
    overwrite: bool,
) -> Seq<V> {
    Seq::new(
        image.len(),
        |i: int|
            if overwrite {
                image[i].product(coefficient)
            } else {
                before[i].sum(coefficient.product(image[i]))
            },
    )
}

/// A scaled matrix-vector product, written to the output or added to it.
pub fn matvec<V: Scalar, O: LinearOperator<V>>(
    operator: &O,
    input: &[V],
    output: &mut [V],
    coefficient: V,
    overwrite: bool,
) -> (result: Result<()>)
    requires
        operator.usable(),
    ensures
        final(output)@.len() == old(output)@.len(),
        match result {
            Ok(()) => {
                &&& coefficient.proper()
                &&& input@.len() == operator.extent().1
                &&& old(output)@.len() == operator.extent().0
                &&& operator.maps(input@) is Some
                &&& final(output)@ == blended(
                    old(output)@,
                    operator.maps(input@)->0,
                    coefficient,
                    overwrite,
                )
            },
            Err(error) => if !coefficient.proper() {
                error is InvalidOptions && final(output)@ == old(output)@
            } else if input@.len() != operator.extent().1 || old(output)@.len()
                != operator.extent().0 {
                error is DimensionMismatch
            } else {
                operator.maps(input@) is None && operator.refuses(input@, error)
            },
        },
{
    if !coefficient.is_finite() {
        return Err(QmbedError::InvalidOptions("matvec coefficient must be finite".to_string()));
    }
    let length: usize = output.len();
    let ghost before = output@;
    if overwrite {
        match operator.apply(input, output) {
            Ok(()) => {},
            Err(error) => {
                return Err(error);
            },
        }
        let ghost image = output@;
        let mut index: usize = 0;
        while index < length
            invariant
                length == output@.len(),
                length == image.len(),
                index <= length,
                forall|i: int|
                    0 <= i < index ==> #[trigger] output@[i] == image[i].product(coefficient),
                forall|i: int| index <= i < length ==> #[trigger] output@[i] == image[i],
            decreases length - index,
        {
            let value: V = output[index].times(coefficient);
            output[index] = value;
            index = index + 1;
        }
        assert(output@ =~= blended(before, image, coefficient, true));
        return Ok(());
    }
    let mut image: Vec<V> = operator::zeros(length);
    match operator.apply(input, image.as_mut_slice()) {
        Ok(()) => {},
        Err(error) => {
            return Err(error);
        },
    }
    let mut index: usize = 0;
    while index < length
        invariant
            length == output@.len(),
            length == image@.len(),
            length == before.len(),
            index <= length,
            forall|i: int|
                0 <= i < index ==> #[trigger] output@[i] == before[i].sum(
                    coefficient.product(image@[i]),
                ),
            forall|i: int| index <= i < length ==> #[trigger] output@[i] == before[i],
        decreases length - index,
    {
        let value: V = output[index].plus(coefficient.times(image[index]));
        output[index] = value;
        index = index + 1;
    }
    assert(output@ =~= blended(before, image@, coefficient, false));
    Ok(())
}

/// The vector is the first without an image, and the error is the one for it.
pub open spec fn stops_at<V: Scalar, O: LinearOperator<V>>(
    operator: &O,
    columns: Seq<Vec<V>>,
    at: int,
    error: QmbedError,
) -> bool {
    &&& 0 <= at < columns.len()
    &&& forall|i: int|
        0 <= i < at ==> (#[trigger] columns[i])@.len() == operator.extent().1 && operator.maps(
            columns[i]@,
        ) is Some
    &&& if columns[at]@.len() != operator.extent().1 {
        error is DimensionMismatch
    } else {
        operator.maps(columns[at]@) is None && operator.refuses(columns[at]@, error)
    }
}

/// The vector is the first without an image under the transpose, and the error is the
/// one for it.
pub open spec fn stops_back_at<V: Scalar, O: LinearOperator<V>>(
    operator: &O,
    rows: Seq<Vec<V>>,
    at: int,
    error: QmbedError,
) -> bool {
    &&& 0 <= at < rows.len()
    &&& forall|i: int|
        0 <= i < at ==> (#[trigger] rows[i])@.len() == operator.extent().0
            && operator.maps_back(rows[i]@) is Some
    &&& if rows[at]@.len() != operator.extent().0 {
        error is DimensionMismatch
    } else {
        operator.maps_back(rows[at]@) is None && operator.refuses_back(rows[at]@, error)
    }
}

/// Applies a map to several vectors.
pub fn matmat<V: Scalar, O: LinearOperator<V>>(operator: &O, columns: &[Vec<V>]) -> (result: Result<
    Vec<Vec<V>>,
>)
    requires
        operator.usable(),
    ensures
        match result {
            Ok(list) => list@.len() == columns@.len() && forall|i: int|
                0 <= i < list@.len() ==> imaged(operator, columns@[i]@, (#[trigger] list@[i])@),
            Err(error) => exists|i: int| #[trigger] stops_at(operator, columns@, i, error),
        },
{
    let (rows, taken): (usize, usize) = operator.shape();
    let mut list: Vec<Vec<V>> = Vec::new();
    while list.len() < columns.len()
        invariant
            operator.usable(),
            operator.extent() == (rows, taken),
            list@.len() <= columns@.len(),
            forall|i: int|
                0 <= i < list@.len() ==> imaged(operator, columns@[i]@, (#[trigger] list@[i])@),
        decreases columns@.len() - list@.len(),
    {
        let column: &Vec<V> = &columns[list.len()];
        let mut output: Vec<V> = operator::zeros(rows);
        match operator.apply(column.as_slice(), output.as_mut_slice()) {
            Ok(()) => {},
            Err(error) => {
                proof {
                    assert forall|i: int| 0 <= i < list@.len() implies (
                    #[trigger] columns@[i])@.len() == operator.extent().1 && operator.maps(
                        columns@[i]@,
                    ) is Some by {
                        assert(imaged(operator, columns@[i]@, list@[i]@));
                    }
                    assert(stops_at(operator, columns@, list@.len() as int, error));
                }
                return Err(error);
            },
        }
        assert(imaged(operator, columns@[list@.len() as int]@, output@));
        list.push(output);
    }
    Ok(list)
}

/// A row vector times a map.
pub fn rmatvec<V: Scalar, O: LinearOperator<V>>(operator: &O, input: &[V]) -> (result: Result<
    Vec<V>,
>)
    requires
        operator.usable(),
    ensures
        match result {
            Ok(output) => input@.len() == operator.extent().0 && operator.maps_back(input@)
                == Some(output@),
            Err(error) => if input@.len() != operator.extent().0 {
                error is DimensionMismatch
            } else {
                operator.maps_back(input@) is None && operator.refuses_back(input@, error)
            },
        },
{
    let (_, columns): (usize, usize) = operator.shape();
    let mut output: Vec<V> = operator::zeros(columns);
    match operator.apply_transpose(input, output.as_mut_slice()) {
        Ok(()) => Ok(output),
        Err(error) => Err(error),
    }
}

/// Several row vectors times a map.
pub fn rmatmat<V: Scalar, O: LinearOperator<V>>(operator: &O, rows: &[Vec<V>]) -> (result: Result<
    Vec<Vec<V>>,
>)
    requires
        operator.usable(),
    ensures
        match result {
            Ok(list) => list@.len() == rows@.len() && forall|i: int|
                0 <= i < list@.len() ==> imaged_back(
                    operator,
                    rows@[i]@,
                    (#[trigger] list@[i])@,
                ),
            Err(error) => exists|i: int| #[trigger] stops_back_at(operator, rows@, i, error),
        },
{
    let mut list: Vec<Vec<V>> = Vec::new();
    while list.len() < rows.len()
        invariant
            operator.usable(),
            list@.len() <= rows@.len(),
            forall|i: int|
                0 <= i < list@.len() ==> imaged_back(
                    operator,
                    rows@[i]@,
                    (#[trigger] list@[i])@,
                ),
        decreases rows@.len() - list@.len(),
    {
        match rmatvec(operator, rows[list.len()].as_slice()) {
            Ok(output) => {
                assert(imaged_back(operator, rows@[list@.len() as int]@, output@));
                list.push(output);
            },
            Err(error) => {
                proof {
                    assert forall|i: int| 0 <= i < list@.len() implies (
                    #[trigger] rows@[i])@.len() == operator.extent().0 && operator.maps_back(
                        rows@[i]@,
                    ) is Some by {
                        assert(imaged_back(operator, rows@[i]@, list@[i]@));
                    }
                    assert(stops_back_at(operator, rows@, list@.len() as int, error));
                }
                return Err(error);
            },
        }
    }
    Ok(list)
}

/// A map kept for repeated products.
#[derive(Debug)]
pub struct MatVecPlan<O> {
    operator: O,
}

impl<O> MatVecPlan<O> {
    pub closed spec fn kept(&self) -> O {
        self.operator
    }

    pub fn new(operator: O) -> (plan: Self)
        ensures
            plan.kept() == operator,
    {
        MatVecPlan { operator }
    }

    pub fn operator(&self) -> (operator: &O)
        ensures
            *operator == self.kept(),
    {
        &self.operator
    }

    /// A scaled matrix-vector product, written to the output or added to it.
    pub fn apply<V: Scalar>(
        &self,
        input: &[V],
        output: &mut [V],
        coefficient: V,
        overwrite: bool,
    ) -> (result: Result<()>) where O: LinearOperator<V>
        requires
            self.kept().usable(),
        ensures
            final(output)@.len() == old(output)@.len(),
            match result {
                Ok(()) => {
                    &&& coefficient.proper()
                    &&& input@.len() == self.kept().extent().1
                    &&& old(output)@.len() == self.kept().extent().0
                    &&& self.kept().maps(input@) is Some
                    &&& final(output)@ == blended(
                        old(output)@,
                        self.kept().maps(input@)->0,
                        coefficient,
                        overwrite,
                    )
                },
                Err(error) => if !coefficient.proper() {
                    error is InvalidOptions && final(output)@ == old(output)@
                } else if input@.len() != self.kept().extent().1 || old(output)@.len()
                    != self.kept().extent().0 {
                    error is DimensionMismatch
                } else {
                    self.kept().maps(input@) is None && self.kept().refuses(input@, error)
                },
            },
    {
        matvec(&self.operator, input, output, coefficient, overwrite)
    }
}

/// Keeps a map for repeated products.
pub fn get_matvec_function<O>(operator: O) -> (plan: MatVecPlan<O>)
    ensures
        plan.kept() == operator,
{
    MatVecPlan::new(operator)
}

} // verus!
