//! Combinations of operators act as the same combinations of their images, for exact
//! numbers.

use vstd::prelude::*;
use crate::algebra;
use crate::combination::Part;
use crate::combination;
use crate::composition;
use crate::exactness;
use crate::grids;
use crate::hamiltonian::{Dynamic, Hamiltonian};
use crate::hamiltonian;
use crate::operator::{MatrixFormat, Operator};
use crate::quantum::{Parameter, QuantumOperator};
use crate::quantum;
use crate::scalar::Scalar;
use crate::triplets;

verus! {

/// What is done to the values of a part is to multiply them by a number.
pub open spec fn weighed<V: Scalar>(part: Part<V>, weight: V) -> bool {
    forall|value: V| #[trigger] algebra::changed(part.change, value) == weight.product(value)
}

proof fn lemma_contributions<V: Scalar>(
    parts: Seq<Part<V>>,
    weights: spec_fn(int) -> V,
    row: int,
    column: int,
    upto: nat,
)
    requires
        exactness::exact::<V>(),
        upto <= parts.len(),
        forall|k: int| 0 <= k < parts.len() ==> #[trigger] weighed(parts[k], weights(k)),
    ensures
        triplets::summed(combination::contributions(parts, row, column, upto))
            == exactness::total(
            |k: int| weights(k).product(parts[k].matrix.entry(row, column)),
            upto,
        ),
    decreases upto,
{
    if upto > 0 {
        let shorter = (upto - 1) as nat;
        lemma_contributions(parts, weights, row, column, shorter);
        let front = combination::contributions(parts, row, column, shorter);
        let part = parts[upto - 1];
        let value = part.matrix.entry(row, column);
        let weight = weights(upto - 1);
        assert(weighed(part, weight));
        let z = V::zero_value();
        if value.tiny() {
            assert(exactness::factors_commute(weight, z));
            assert(z.product(weight) == z);
            let sum = triplets::summed(front);
            assert(exactness::commutes(sum, z));
            assert(z.sum(sum) == sum);
        } else {
            let more = front.push(algebra::changed(part.change, value));
            assert(more.drop_last() =~= front);
            assert(algebra::changed(part.change, value) == weight.product(value));
        }
    }
}

/// A combination of matrices maps a vector to the combination of its images.
pub proof fn combinations_act<V: Scalar>(
    matrix: &Operator<V>,
    shape: (usize, usize),
    format: MatrixFormat,
    parts: Seq<Part<V>>,
    weights: spec_fn(int) -> V,
    input: Seq<V>,
    row: int,
)
    requires
        exactness::exact::<V>(),
        combination::sums_up(matrix, shape, format, parts),
        forall|k: int| 0 <= k < parts.len() ==> #[trigger] weighed(parts[k], weights(k)),
        forall|k: int|
            0 <= k < parts.len() ==> (#[trigger] parts[k]).matrix.wf() && parts[k].matrix.shape
                == shape,
        0 <= row < shape.0,
    ensures
        matrix.image(input)[row] == exactness::total(
            |k: int| weights(k).product(parts[k].matrix.image(input)[row]),
            parts.len(),
        ),
{
    let columns = shape.1 as nat;
    let count = parts.len();
    exactness::rows_sum_up(matrix, row, input);
    let value = |k: int, c: int|
        weights(k).product(parts[k].matrix.entry(row, c)).product(input[c]);
    let by_parts = |k: int| exactness::total(|c: int| value(k, c), columns);
    let by_places = |c: int| exactness::total(|k: int| value(k, c), count);
    let whole = exactness::row_terms(matrix, row, input);
    assert forall|c: int| 0 <= c < columns implies #[trigger] whole(c) == by_places(c) by {
        assert(matrix.inside(row, c));
        lemma_contributions(parts, weights, row, c, count);
        let cells = |k: int| weights(k).product(parts[k].matrix.entry(row, c));
        composition::lemma_scaled(cells, input[c], count);
        let scaled = |k: int| cells(k).product(input[c]);
        let plain = |k: int| value(k, c);
        assert forall|k: int| 0 <= k < count implies #[trigger] scaled(k) == plain(k) by {}
        exactness::lemma_total_same(scaled, plain, count);
        assert(matrix.entry(row, c) == exactness::total(cells, count));
    }
    exactness::lemma_total_same(whole, by_places, columns);
    composition::lemma_exchanged(value, count, columns);
    let images = |k: int| weights(k).product(parts[k].matrix.image(input)[row]);
    assert forall|k: int| 0 <= k < count implies #[trigger] by_parts(k) == images(k) by {
        let part = parts[k].matrix;
        let weight = weights(k);
        exactness::rows_sum_up(&part, row, input);
        let terms = exactness::row_terms(&part, row, input);
        composition::lemma_scaled(terms, weight, columns);
        let scaled = |c: int| terms(c).product(weight);
        let plain = |c: int| value(k, c);
        assert forall|c: int| 0 <= c < columns implies #[trigger] scaled(c) == plain(c) by {
            let e = part.entry(row, c);
            assert(exactness::factors_commute(e.product(input[c]), weight));
            assert(exactness::factors_regroup(weight, e, input[c]));
        }
        exactness::lemma_total_same(scaled, plain, columns);
        assert(exactness::factors_commute(exactness::total(terms, columns), weight));
    }
    exactness::lemma_total_same(by_parts, images, count);
}

pub proof fn lemma_first_apart<V: Scalar>(
    value: spec_fn(int) -> V,
    rest: spec_fn(int) -> V,
    upto: nat,
)
    requires
        exactness::exact::<V>(),
        forall|k: int| 0 <= k < upto ==> #[trigger] rest(k) == value(k + 1),
    ensures
        exactness::total(value, upto + 1) == value(0).sum(exactness::total(rest, upto)),
    decreases upto,
{
    let first = value(0);
    if upto == 0 {
        reveal_with_fuel(exactness::total, 2);
        assert(V::zero_value().sum(first) == first);
        assert(exactness::commutes(first, V::zero_value()));
    } else {
        let shorter = (upto - 1) as nat;
        lemma_first_apart(value, rest, shorter);
        let before = exactness::total(rest, shorter);
        assert(rest(upto - 1) == value(upto as int));
        assert(exactness::regroups(first, before, rest(upto - 1)));
    }
}

proof fn lemma_driven<V: Scalar>(
    still: Operator<V>,
    parts: Seq<Operator<V>>,
    coefficients: Seq<V>,
    input: Seq<V>,
    upto: nat,
    row: int,
)
    requires
        exactness::exact::<V>(),
        0 <= row < still.rows(),
    ensures
        hamiltonian::driven_image(still, parts, coefficients, input, upto).len() == still.rows(),
        hamiltonian::driven_image(still, parts, coefficients, input, upto)[row] == still.image(
            input,
        )[row].sum(
            exactness::total(
                |k: int| coefficients[k].product(parts[k].image(input)[row]),
                upto,
            ),
        ),
    decreases upto,
{
    let start = still.image(input)[row];
    let terms = |k: int| coefficients[k].product(parts[k].image(input)[row]);
    if upto == 0 {
        assert(exactness::commutes(start, V::zero_value()));
        assert(V::zero_value().sum(start) == start);
    } else {
        lemma_driven(still, parts, coefficients, input, (upto - 1) as nat, row);
        assert(exactness::regroups(
            start,
            exactness::total(terms, (upto - 1) as nat),
            terms(upto - 1),
        ));
    }
}

/// The image of a vector at a moment is its image under the part that stands still and, of
/// every driven part, the image times the value of its own drive.
pub proof fn drives_weigh_their_own_parts<V: Scalar>(
    hamiltonian: &Hamiltonian<V, Dynamic>,
    coefficients: Seq<V>,
    input: Seq<V>,
    row: int,
)
    requires
        exactness::exact::<V>(),
        hamiltonian.wf(),
        0 <= row < hamiltonian.still().shape.0,
    ensures
        hamiltonian.image_at(coefficients, input)[row] == hamiltonian.still().image(
            input,
        )[row].sum(
            exactness::total(
                |k: int| coefficients[k].product(hamiltonian.driven()[k].image(input)[row]),
                hamiltonian.driven().len(),
            ),
        ),
{
    lemma_driven(
        hamiltonian.still(),
        hamiltonian.driven(),
        coefficients,
        input,
        hamiltonian.driven().len(),
        row,
    );
}

/// Where all drives but one have the value zero, the image is that under the part that stands
/// still and the value of this drive times the image under its own part.
pub proof fn single_drives_act_alone<V: Scalar>(
    hamiltonian: &Hamiltonian<V, Dynamic>,
    coefficients: Seq<V>,
    input: Seq<V>,
    row: int,
    chosen: int,
)
    requires
        exactness::exact::<V>(),
        hamiltonian.wf(),
        0 <= row < hamiltonian.still().shape.0,
        0 <= chosen < hamiltonian.driven().len(),
        forall|k: int|
            0 <= k < hamiltonian.driven().len() && k != chosen ==> #[trigger] coefficients[k]
                == V::zero_value(),
    ensures
        hamiltonian.image_at(coefficients, input)[row] == hamiltonian.still().image(
            input,
        )[row].sum(
            coefficients[chosen].product(hamiltonian.driven()[chosen].image(input)[row]),
        ),
{
    let count = hamiltonian.driven().len();
    drives_weigh_their_own_parts(hamiltonian, coefficients, input, row);
    let terms = |k: int| coefficients[k].product(hamiltonian.driven()[k].image(input)[row]);
    let none = |k: int| V::zero_value();
    assert forall|k: int| 0 <= k < count && k != chosen implies #[trigger] terms(k)
        == none(k) by {
        assert(V::zero_value().product(hamiltonian.driven()[k].image(input)[row])
            == V::zero_value());
    }
    exactness::lemma_total_zero(none, count);
    exactness::lemma_total_replaced(none, terms, chosen, count);
    assert(V::zero_value().sum(terms(chosen)) == terms(chosen));
}

/// The image of a vector at a moment is its image under the matrix of that moment.
pub proof fn moments_agree<V: Scalar>(
    hamiltonian: &Hamiltonian<V, Dynamic>,
    coefficients: Seq<V>,
    format: MatrixFormat,
    matrix: &Operator<V>,
    input: Seq<V>,
)
    requires
        grids::faithful::<V>(),
        hamiltonian.wf(),
        coefficients.len() == hamiltonian.driven().len(),
        combination::sums_up(
            matrix,
            hamiltonian.still().shape,
            format,
            hamiltonian.parts_at(coefficients),
        ),
    ensures
        matrix.image(input) == hamiltonian.image_at(coefficients, input),
{
    let parts = hamiltonian.parts_at(coefficients);
    let count = hamiltonian.driven().len();
    let shape = hamiltonian.still().shape;
    let weights = |k: int|
        if k == 0 {
            V::one_value()
        } else {
            coefficients[k - 1]
        };
    let rows = shape.0 as int;
    assert forall|k: int| 0 <= k < parts.len() implies (#[trigger] parts[k]).matrix.wf()
        && parts[k].matrix.shape == shape by {
        if k > 0 {
            assert(parts[k].matrix == hamiltonian.driven()[k - 1]);
        }
    }
    assert forall|k: int| 0 <= k < parts.len() implies #[trigger] weighed(
        parts[k],
        weights(k),
    ) by {
        assert forall|value: V| #[trigger]
            algebra::changed(parts[k].change, value) == weights(k).product(value) by {
            assert(V::one_value().product(value) == value);
        }
    }
    assert forall|row: int| 0 <= row < rows implies matrix.image(input)[row]
        == hamiltonian.image_at(coefficients, input)[row] by {
        combinations_act(matrix, shape, format, parts, weights, input, row);
        drives_weigh_their_own_parts(hamiltonian, coefficients, input, row);
        let all = |k: int| weights(k).product(parts[k].matrix.image(input)[row]);
        let rest = |k: int|
            coefficients[k].product(hamiltonian.driven()[k].image(input)[row]);
        assert forall|k: int| 0 <= k < count implies #[trigger] rest(k) == all(k + 1) by {
            assert(parts[k + 1].matrix == hamiltonian.driven()[k]);
        }
        lemma_first_apart(all, rest, count);
        let first = hamiltonian.still().image(input)[row];
        assert(V::one_value().product(first) == first);
    }
    if rows > 0 {
        lemma_driven(
            hamiltonian.still(),
            hamiltonian.driven(),
            coefficients,
            input,
            count,
            0,
        );
    } else {
        lemma_no_rows(
            hamiltonian.still(),
            hamiltonian.driven(),
            coefficients,
            input,
            count,
        );
    }
    assert(matrix.image(input) =~= hamiltonian.image_at(coefficients, input));
}

proof fn lemma_no_rows<V: Scalar>(
    still: Operator<V>,
    parts: Seq<Operator<V>>,
    coefficients: Seq<V>,
    input: Seq<V>,
    upto: nat,
)
    ensures
        hamiltonian::driven_image(still, parts, coefficients, input, upto).len() == still.rows(),
    decreases upto,
{
    if upto > 0 {
        lemma_no_rows(still, parts, coefficients, input, (upto - 1) as nat);
    }
}

/// The value of a named parameter is that of the first of its name, whatever the others are.
pub proof fn parameters_are_found_by_name<V>(
    parameters: Seq<Parameter<V>>,
    name: Seq<char>,
    at: int,
)
    requires
        0 <= at < parameters.len(),
        parameters[at].name@ == name,
        forall|i: int| 0 <= i < at ==> (#[trigger] parameters[i]).name@ != name,
    ensures
        quantum::given(parameters, name) == Some(parameters[at].value),
    decreases at,
{
    if at > 0 {
        let rest = parameters.drop_first();
        assert(rest[at - 1] == parameters[at]);
        assert forall|i: int| 0 <= i < at - 1 implies (#[trigger] rest[i]).name@ != name by {
            assert(rest[i] == parameters[i + 1]);
        }
        assert(parameters[0].name@ != name);
        parameters_are_found_by_name(rest, name, at - 1);
    }
}

/// A combination of named components maps a vector to the sum of the images under all
/// components, each times the value given for its own name.
pub proof fn components_are_weighed_by_name<V: Scalar>(
    whole: &QuantumOperator<V>,
    parameters: Seq<Parameter<V>>,
    places: spec_fn(int) -> int,
    format: MatrixFormat,
    matrix: &Operator<V>,
    input: Seq<V>,
    row: int,
)
    requires
        exactness::exact::<V>(),
        whole.wf(),
        combination::sums_up(matrix, whole.extent(), format, whole.parts(parameters)),
        forall|k: int|
            #![trigger places(k)]
            0 <= k < whole.list().len() ==> first_of_name(
                parameters,
                whole.list()[k].title(),
                places(k),
            ),
        0 <= row < whole.extent().0,
    ensures
        matrix.image(input)[row] == exactness::total(
            |k: int|
                parameters[places(k)].value.product(whole.list()[k].matrix().image(input)[row]),
            whole.list().len(),
        ),
{
    let parts = whole.parts(parameters);
    let weights = |k: int| parameters[places(k)].value;
    assert forall|k: int| 0 <= k < parts.len() implies (#[trigger] parts[k]).matrix.wf()
        && parts[k].matrix.shape == whole.extent() by {
        assert(quantum::admitted(whole.list(), k));
        assert(whole.list()[k].matrix().wf());
    }
    assert forall|k: int| 0 <= k < parts.len() implies #[trigger] weighed(
        parts[k],
        weights(k),
    ) by {
        assert(first_of_name(parameters, whole.list()[k].title(), places(k)));
        parameters_are_found_by_name(parameters, whole.list()[k].title(), places(k));
        assert forall|value: V| #[trigger]
            algebra::changed(parts[k].change, value) == weights(k).product(value) by {}
    }
    combinations_act(matrix, whole.extent(), format, parts, weights, input, row);
    let first = |k: int| weights(k).product(parts[k].matrix.image(input)[row]);
    let second = |k: int|
        parameters[places(k)].value.product(whole.list()[k].matrix().image(input)[row]);
    assert forall|k: int| 0 <= k < parts.len() implies #[trigger] first(k) == second(k) by {}
    exactness::lemma_total_same(first, second, parts.len());
}

/// The place holds the first parameter of the name.
pub open spec fn first_of_name<V>(
    parameters: Seq<Parameter<V>>,
    name: Seq<char>,
    at: int,
) -> bool {
    &&& 0 <= at < parameters.len()
    &&& parameters[at].name@ == name
    &&& forall|i: int| 0 <= i < at ==> (#[trigger] parameters[i]).name@ != name
}

} // verus!
