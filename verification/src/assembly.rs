//! Matrices of operators between many-body bases.

use vstd::prelude::*;
use crate::bands;
use crate::basis::Basis;
use crate::compressed;
use crate::error::{QmbedError, Result};
use crate::error;
use crate::local::{Factor, Fault, Transition};
use crate::local;
use crate::operator::{MatrixFormat, Operator};
use crate::operator;
use crate::scalar::{Amplitude, Scalar};
use crate::terms::{AssemblyChecks, Coupling, OperatorTerm};
use crate::terms;
use crate::triplets::Triplet;
use crate::triplets;
use crate::weights;

verus! {

/// Matrix entries, or the first fault met.
pub type Entries<V> = std::result::Result<Seq<Triplet<V>>, Fault>;

/// The first entries followed by the second ones, or the first fault.
pub open spec fn chained<V>(first: Entries<V>, second: Entries<V>) -> Entries<V> {
    match first {
        Err(fault) => Err(fault),
        Ok(a) => match second {
            Err(fault) => Err(fault),
            Ok(b) => Ok(a + b),
        },
    }
}

/// The entries of one column that outcomes contribute with a coefficient.
pub open spec fn outcome_entries<B: Basis, V: Amplitude>(
    target: &B,
    list: Seq<(B::State, Seq<Factor>)>,
    source_orbit: usize,
    column: usize,
    coefficient: V,
) -> Seq<Triplet<V>>
    decreases list.len(),
{
    if list.len() == 0 {
        Seq::empty()
    } else {
        let front = outcome_entries(target, list.drop_last(), source_orbit, column, coefficient);
        let (state, factors) = list.last();
        match target.landing(state, source_orbit) {
            Some(landing) => front.push(
                Triplet {
                    row: landing.index,
                    column,
                    value: coefficient.product(weights::weight::<V>(factors)).product(
                        V::of_reduction(landing.reduction),
                    ),
                },
            ),
            None => front,
        }
    }
}

/// The entries of one column that a coupling contributes.
pub open spec fn coupling_entries<S: Basis, T: Basis<State = S::State>, V: Amplitude>(
    source: &S,
    target: &T,
    column: usize,
    term: &OperatorTerm<V>,
    coupling: Coupling<V>,
) -> Entries<V> {
    let state = source.listed()[column as int];
    match source.action(
        state,
        terms::letters(term.factors().operators()),
        term.factors().boundary(),
        coupling.sites@,
    ) {
        Err(fault) => Err(fault),
        Ok(list) => Ok(
            outcome_entries(
                target,
                list,
                source.orbit_weight(state) as usize,
                column,
                coupling.coefficient,
            ),
        ),
    }
}

/// The entries of one column that the first couplings of a term contribute.
pub open spec fn term_entries<S: Basis, T: Basis<State = S::State>, V: Amplitude>(
    source: &S,
    target: &T,
    column: usize,
    term: &OperatorTerm<V>,
    upto: nat,
) -> Entries<V>
    decreases upto,
{
    if upto == 0 {
        Ok(Seq::empty())
    } else {
        chained(
            term_entries(source, target, column, term, (upto - 1) as nat),
            coupling_entries(source, target, column, term, term.terms()[upto - 1]),
        )
    }
}

/// The entries of one column that the first terms contribute.
pub open spec fn column_entries<S: Basis, T: Basis<State = S::State>, V: Amplitude>(
    source: &S,
    target: &T,
    column: usize,
    list: Seq<OperatorTerm<V>>,
    upto: nat,
) -> Entries<V>
    decreases upto,
{
    if upto == 0 {
        Ok(Seq::empty())
    } else {
        chained(
            column_entries(source, target, column, list, (upto - 1) as nat),
            term_entries(source, target, column, &list[upto - 1], list[upto - 1].terms().len()),
        )
    }
}

/// The entries of the first columns.
pub open spec fn matrix_entries<S: Basis, T: Basis<State = S::State>, V: Amplitude>(
    source: &S,
    target: &T,
    list: Seq<OperatorTerm<V>>,
    columns: nat,
) -> Entries<V>
    decreases columns,
{
    if columns == 0 {
        Ok(Seq::empty())
    } else {
        chained(
            matrix_entries(source, target, list, (columns - 1) as nat),
            column_entries(source, target, (columns - 1) as usize, list, list.len()),
        )
    }
}

/// Whether the first terms keep the particle sectors of both bases, or the first fault.
pub open spec fn conservation<S: Basis, T: Basis<State = S::State>, V: Scalar>(
    source: &S,
    target: &T,
    list: Seq<OperatorTerm<V>>,
    upto: nat,
) -> std::result::Result<bool, Fault>
    decreases upto,
{
    if upto == 0 {
        Ok(true)
    } else {
        match conservation(source, target, list, (upto - 1) as nat) {
            Ok(true) => {
                let product = list[upto - 1].factors();
                let label = terms::spelled_out(product.operators(), product.boundary());
                match source.preservation(label) {
                    Ok(true) => target.preservation(label),
                    other => other,
                }
            },
            other => other,
        }
    }
}

/// A sum that counts as zero is stored as zero.
pub open spec fn kept<V: Scalar>(value: V) -> V {
    if value.tiny() {
        V::zero_value()
    } else {
        value
    }
}

/// The entries lie on more diagonals than diagonal storage is meant for.
pub open spec fn too_scattered<V: Scalar>(
    list: Seq<Triplet<V>>,
    rows: int,
    columns: int,
) -> bool {
    exists|offsets: Seq<i128>| #[trigger]
        crosses(offsets, list) && offsets.len() > 1 && offsets.len() > (if rows <= columns {
            2 * rows
        } else {
            2 * columns
        })
}

/// The diagonals on which sums that do not count as zero lie.
pub open spec fn crosses<V: Scalar>(offsets: Seq<i128>, list: Seq<Triplet<V>>) -> bool {
    &&& bands::ascending(offsets)
    &&& forall|row: int, column: int|
        !(#[trigger] triplets::cell_sum(list, row, column)).tiny() ==> bands::lists(
            offsets,
            row - column,
        )
    &&& forall|i: int| 0 <= i < offsets.len() ==> met(list, #[trigger] offsets[i] as int)
}

/// Some sum that does not count as zero lies on the diagonal.
pub open spec fn met<V: Scalar>(list: Seq<Triplet<V>>, offset: int) -> bool {
    exists|row: int, column: int|
        !(#[trigger] triplets::cell_sum(list, row, column)).tiny() && row - column == offset
}

/// Assembles the matrix of a sum of terms from a source to a target basis.
pub struct OperatorBuilder<'a, V, Source, Target> {
    pub source: &'a Source,
    pub target: &'a Target,
    pub terms: Vec<OperatorTerm<V>>,
    pub checks: AssemblyChecks,
}

impl<'a, V: Amplitude, B: Basis> OperatorBuilder<'a, V, B, B> {
    /// An operator within one basis, with every check.
    pub fn on(basis: &'a B) -> (builder: Self)
        ensures
            builder.source == basis,
            builder.target == basis,
            builder.terms@.len() == 0,
            builder.checks == (AssemblyChecks {
                hermiticity: true,
                particle_conservation: true,
                symmetry_compatibility: true,
            }),
    {
        OperatorBuilder {
            source: basis,
            target: basis,
            terms: Vec::new(),
            checks: AssemblyChecks::all(),
        }
    }
}

impl<
    'a,
    V: Amplitude,
    Source: Basis,
    Target: Basis<State = Source::State>,
> OperatorBuilder<'a, V, Source, Target> {
    /// An operator between two bases.
    pub fn between(source: &'a Source, target: &'a Target) -> (builder: Self)
        ensures
            builder.source == source,
            builder.target == target,
            builder.terms@.len() == 0,
            builder.checks == (AssemblyChecks {
                hermiticity: false,
                particle_conservation: false,
                symmetry_compatibility: true,
            }),
    {
        OperatorBuilder {
            source,
            target,
            terms: Vec::new(),
            checks: AssemblyChecks::rectangular(),
        }
    }

    /// Adds terms.
    pub fn terms(self, terms: Vec<OperatorTerm<V>>) -> (builder: Self)
        ensures
            builder.source == self.source,
            builder.target == self.target,
            builder.checks == self.checks,
            builder.terms@ == self.terms@ + terms@,
    {
        let mut builder = self;
        let mut more: Vec<OperatorTerm<V>> = terms;
        builder.terms.append(&mut more);
        builder
    }

    /// Adds one term.
    pub fn term(self, term: OperatorTerm<V>) -> (builder: Self)
        ensures
            builder.source == self.source,
            builder.target == self.target,
            builder.checks == self.checks,
            builder.terms@ == self.terms@.push(term),
    {
        let mut builder = self;
        builder.terms.push(term);
        builder
    }

    /// Replaces the checks.
    pub fn checks(self, checks: AssemblyChecks) -> (builder: Self)
        ensures
            builder.source == self.source,
            builder.target == self.target,
            builder.terms == self.terms,
            builder.checks == checks,
    {
        OperatorBuilder { source: self.source, target: self.target, terms: self.terms, checks }
    }

    pub open spec fn ready(&self) -> bool {
        &&& self.source.well_formed()
        &&& self.target.well_formed()
        &&& forall|i: int|
            0 <= i < self.terms@.len() ==> (#[trigger] self.terms@[i]).wf()
                && self.terms@[i].factors().operators().len() < i32::MAX
    }

    /// All entries of the matrix, in the order in which they arise.
    pub open spec fn entries(&self) -> Entries<V> {
        matrix_entries(self.source, self.target, self.terms@, self.source.listed().len())
    }

    pub open spec fn conserves(&self) -> std::result::Result<bool, Fault> {
        if self.checks.particle_conservation {
            conservation(self.source, self.target, self.terms@, self.terms@.len())
        } else {
            Ok(true)
        }
    }

    /// The matrix holds the sums over all entries of each place.
    pub open spec fn assembles(&self, matrix: &Operator<V>, format: MatrixFormat) -> bool {
        &&& matrix.wf()
        &&& matrix.rows() == self.target.listed().len()
        &&& matrix.columns() == self.source.listed().len()
        &&& matrix.format == format
        &&& forall|row: int, column: int|
            matrix.inside(row, column) ==> #[trigger] matrix.entry(row, column) == kept(
                triplets::cell_sum(self.entries()->Ok_0, row, column),
            )
    }

    /// What assembling the matrix gives.
    pub open spec fn answers(&self, format: MatrixFormat, result: Result<Operator<V>>) -> bool {
        let rows = self.target.listed().len() as int;
        let columns = self.source.listed().len() as int;
        match result {
            Ok(matrix) => {
                &&& self.conserves() == std::result::Result::<bool, Fault>::Ok(true)
                &&& self.entries() is Ok
                &&& format == MatrixFormat::Dia ==> !too_scattered(
                    self.entries()->Ok_0,
                    rows,
                    columns,
                )
                &&& self.assembles(&matrix, format)
                &&& self.checks.hermiticity ==> matrix.hermitian(V::strict_tolerance())
            },
            Err(error) => match self.conserves() {
                Err(fault) => local::reports(error, fault),
                Ok(false) => error is InvalidSector,
                Ok(true) => match self.entries() {
                    Err(fault) => local::reports(error, fault),
                    Ok(list) => {
                        ||| error is UnsupportedBackend && format == MatrixFormat::Dia
                            && too_scattered(list, rows, columns)
                        ||| error is NonHermitian && self.checks.hermiticity && exists|
                            matrix: Operator<V>,
                        | #[trigger]
                            self.assembles(&matrix, format) && !matrix.hermitian(
                                V::strict_tolerance(),
                            )
                    },
                },
            },
        }
    }

    /// Checks that every term keeps the particle sectors.
    fn check_conservation(&self) -> (result: Result<()>)
        requires
            self.ready(),
        ensures
            match result {
                Ok(()) => conservation(self.source, self.target, self.terms@, self.terms@.len())
                    == std::result::Result::<bool, Fault>::Ok(true),
                Err(error) => match conservation(
                    self.source,
                    self.target,
                    self.terms@,
                    self.terms@.len(),
                ) {
                    Ok(kept) => !kept && error is InvalidSector,
                    Err(fault) => local::reports(error, fault),
                },
            },
    {
        let mut index: usize = 0;
        while index < self.terms.len()
            invariant
                self.ready(),
                index <= self.terms@.len(),
                conservation(self.source, self.target, self.terms@, index as nat)
                    == std::result::Result::<bool, Fault>::Ok(true),
            decreases self.terms@.len() - index,
        {
            let term: &OperatorTerm<V> = &self.terms[index];
            let ghost product = self.terms@[index as int].factors();
            let ghost label = terms::spelled_out(product.operators(), product.boundary());
            let ghost goal = conservation(
                self.source,
                self.target,
                self.terms@,
                self.terms@.len(),
            );
            let ghost step = conservation(
                self.source,
                self.target,
                self.terms@,
                (index + 1) as nat,
            );
            proof {
                assert(self.terms@[index as int].wf());
                product.lemma_wf();
                assert(label.len() <= i32::MAX);
                if step != std::result::Result::<bool, Fault>::Ok(true) {
                    lemma_conservation_stops(
                        self.source,
                        self.target,
                        self.terms@,
                        (index + 1) as nat,
                        self.terms@.len(),
                    );
                }
            }
            let operator: &str = term.operator();
            match self.source.operator_preserves_particle_sector(operator) {
                Err(error) => {
                    return Err(error);
                },
                Ok(kept) => {
                    if !kept {
                        return Err(
                            QmbedError::InvalidSector(
                                error::naming(
                                    "operator ",
                                    operator,
                                    " does not preserve the selected particle sector",
                                ),
                            ),
                        );
                    }
                },
            }
            match self.target.operator_preserves_particle_sector(operator) {
                Err(error) => {
                    return Err(error);
                },
                Ok(kept) => {
                    if !kept {
                        return Err(
                            QmbedError::InvalidSector(
                                error::naming(
                                    "operator ",
                                    operator,
                                    " does not preserve the selected particle sector",
                                ),
                            ),
                        );
                    }
                },
            }
            index = index + 1;
        }
        Ok(())
    }

    /// Collects the entries that one coupling contributes to a column.
    fn collect_coupling(
        &self,
        column: usize,
        state: Source::State,
        source_orbit: usize,
        term: &OperatorTerm<V>,
        coupling: &Coupling<V>,
        output: &mut Vec<Triplet<V>>,
    ) -> (result: Result<()>)
        requires
            self.ready(),
            term.wf(),
            column < self.source.listed().len(),
            state == self.source.listed()[column as int],
            self.source.accepts(state),
            source_orbit == self.source.orbit_weight(state),
            triplets::fits(
                old(output)@,
                self.target.listed().len() as int,
                self.source.listed().len() as int,
            ),
        ensures
            triplets::fits(
                final(output)@,
                self.target.listed().len() as int,
                self.source.listed().len() as int,
            ),
            match result {
                Ok(()) => {
                    let added = coupling_entries(
                        self.source,
                        self.target,
                        column,
                        term,
                        *coupling,
                    );
                    added is Ok && final(output)@ == old(output)@ + added->Ok_0
                },
                Err(error) => {
                    let added = coupling_entries(
                        self.source,
                        self.target,
                        column,
                        term,
                        *coupling,
                    );
                    added is Err && local::reports(error, added->Err_0)
                },
            },
    {
        let branches: Vec<Transition<Source::State>> = match self.source.unreduced_transitions(
            state,
            term.product().symbols(),
            term.product().split(),
            coupling.sites.as_slice(),
        ) {
            Ok(list) => list,
            Err(error) => {
                return Err(error);
            },
        };
        let ghost all = local::transitions_view(branches@);
        let ghost start = output@;
        let mut position: usize = 0;
        proof {
            assert(all.subrange(0, 0) =~= Seq::empty());
            assert(start + Seq::<Triplet<V>>::empty() =~= start);
        }
        while position < branches.len()
            invariant
                self.ready(),
                column < self.source.listed().len(),
                all == local::transitions_view(branches@),
                position <= branches@.len(),
                output@ == start + outcome_entries(
                    self.target,
                    all.subrange(0, position as int),
                    source_orbit,
                    column,
                    coupling.coefficient,
                ),
                triplets::fits(
                    output@,
                    self.target.listed().len() as int,
                    self.source.listed().len() as int,
                ),
            decreases branches@.len() - position,
        {
            let ghost shorter = outcome_entries(
                self.target,
                all.subrange(0, position as int),
                source_orbit,
                column,
                coupling.coefficient,
            );
            assert(all.subrange(0, position + 1).drop_last() =~= all.subrange(0, position as int));
            if let Some(landing) = self.target.index_transition(
                branches[position].state,
                source_orbit,
            ) {
                let amplitude: V = weights::weigh(&branches[position].factors);
                let value: V = coupling.coefficient.times(amplitude).times(
                    V::from_reduction(landing.reduction),
                );
                let entry: Triplet<V> = Triplet { row: landing.index, column, value };
                output.push(entry);
                assert(output@ =~= start + shorter.push(entry));
            }
            position = position + 1;
        }
        assert(all.subrange(0, position as int) =~= all);
        Ok(())
    }

    /// Collects the entries of one column.
    fn collect_column(&self, column: usize, output: &mut Vec<Triplet<V>>) -> (result: Result<()>)
        requires
            self.ready(),
            column < self.source.listed().len(),
            triplets::fits(
                old(output)@,
                self.target.listed().len() as int,
                self.source.listed().len() as int,
            ),
        ensures
            triplets::fits(
                final(output)@,
                self.target.listed().len() as int,
                self.source.listed().len() as int,
            ),
            match result {
                Ok(()) => {
                    let added = column_entries(
                        self.source,
                        self.target,
                        column,
                        self.terms@,
                        self.terms@.len(),
                    );
                    added is Ok && final(output)@ == old(output)@ + added->Ok_0
                },
                Err(error) => {
                    let added = column_entries(
                        self.source,
                        self.target,
                        column,
                        self.terms@,
                        self.terms@.len(),
                    );
                    added is Err && local::reports(error, added->Err_0)
                },
            },
    {
        let state: Source::State = match self.source.state(column) {
            Ok(state) => state,
            Err(error) => {
                assert(false);
                return Err(error);
            },
        };
        proof {
            assert(self.source.listed().contains(state)) by {
                assert(self.source.listed()[column as int] == state);
            }
        }
        let source_orbit: usize = match self.source.transition_orbit_size(state) {
            Ok(size) => size,
            Err(error) => {
                assert(false);
                return Err(error);
            },
        };
        let ghost start = output@;
        let mut at: usize = 0;
        assert(start + Seq::<Triplet<V>>::empty() =~= start);
        while at < self.terms.len()
            invariant
                self.ready(),
                column < self.source.listed().len(),
                state == self.source.listed()[column as int],
                self.source.accepts(state),
                source_orbit == self.source.orbit_weight(state),
                at <= self.terms@.len(),
                column_entries(self.source, self.target, column, self.terms@, at as nat) is Ok,
                output@ == start + column_entries(
                    self.source,
                    self.target,
                    column,
                    self.terms@,
                    at as nat,
                )->Ok_0,
                triplets::fits(
                    output@,
                    self.target.listed().len() as int,
                    self.source.listed().len() as int,
                ),
            decreases self.terms@.len() - at,
        {
            let term: &OperatorTerm<V> = &self.terms[at];
            assert(self.terms@[at as int].wf());
            let ghost before = output@;
            let ghost earlier = column_entries(
                self.source,
                self.target,
                column,
                self.terms@,
                at as nat,
            );
            let couplings: &[Coupling<V>] = term.couplings();
            let mut index: usize = 0;
            assert(before + Seq::<Triplet<V>>::empty() =~= before);
            while index < couplings.len()
                invariant
                    self.ready(),
                    at < self.terms@.len(),
                    *term == self.terms@[at as int],
                    term.wf(),
                    couplings@ == term.terms(),
                    column < self.source.listed().len(),
                    state == self.source.listed()[column as int],
                    self.source.accepts(state),
                    source_orbit == self.source.orbit_weight(state),
                    index <= couplings@.len(),
                    earlier == column_entries(
                        self.source,
                        self.target,
                        column,
                        self.terms@,
                        at as nat,
                    ),
                    earlier is Ok,
                    term_entries(self.source, self.target, column, term, index as nat) is Ok,
                    output@ == before + term_entries(
                        self.source,
                        self.target,
                        column,
                        term,
                        index as nat,
                    )->Ok_0,
                    triplets::fits(
                        output@,
                        self.target.listed().len() as int,
                        self.source.listed().len() as int,
                    ),
                decreases couplings@.len() - index,
            {
                let ghost so_far = term_entries(
                    self.source,
                    self.target,
                    column,
                    term,
                    index as nat,
                )->Ok_0;
                match self.collect_coupling(
                    column,
                    state,
                    source_orbit,
                    term,
                    &couplings[index],
                    output,
                ) {
                    Ok(()) => {},
                    Err(error) => {
                        proof {
                            lemma_term_stops(
                                self.source,
                                self.target,
                                column,
                                term,
                                (index + 1) as nat,
                                term.terms().len(),
                            );
                            lemma_column_stops(
                                self.source,
                                self.target,
                                column,
                                self.terms@,
                                (at + 1) as nat,
                                self.terms@.len(),
                            );
                        }
                        return Err(error);
                    },
                }
                proof {
                    let added = coupling_entries(
                        self.source,
                        self.target,
                        column,
                        term,
                        term.terms()[index as int],
                    )->Ok_0;
                    assert(output@ =~= before + (so_far + added));
                }
                index = index + 1;
            }
            proof {
                let added = term_entries(
                    self.source,
                    self.target,
                    column,
                    term,
                    term.terms().len(),
                )->Ok_0;
                assert(output@ =~= start + (earlier->Ok_0 + added));
            }
            at = at + 1;
        }
        Ok(())
    }

    /// Assembles the matrix.
    pub fn build(self, format: MatrixFormat) -> (result: Result<Operator<V>>)
        requires
            self.ready(),
            self.target.listed().len() <= usize::MAX,
            self.source.listed().len() <= usize::MAX,
            operator::storable(
                self.target.listed().len() as usize,
                self.source.listed().len() as usize,
                format,
            ),
        ensures
            self.answers(format, result),
    {
        self.assemble(format)
    }

    /// Assembles the matrix and keeps the terms.
    pub fn assemble(&self, format: MatrixFormat) -> (result: Result<Operator<V>>)
        requires
            self.ready(),
            self.target.listed().len() <= usize::MAX,
            self.source.listed().len() <= usize::MAX,
            operator::storable(
                self.target.listed().len() as usize,
                self.source.listed().len() as usize,
                format,
            ),
        ensures
            self.answers(format, result),
    {
        let rows: usize = self.target.len();
        let columns: usize = self.source.len();
        if self.checks.particle_conservation {
            match self.check_conservation() {
                Ok(()) => {},
                Err(error) => {
                    return Err(error);
                },
            }
        }
        let mut raw: Vec<Triplet<V>> = Vec::new();
        let mut column: usize = 0;
        while column < columns
            invariant
                self.ready(),
                columns == self.source.listed().len(),
                rows == self.target.listed().len(),
                column <= columns,
                self.conserves() == std::result::Result::<bool, Fault>::Ok(true),
                matrix_entries(self.source, self.target, self.terms@, column as nat)
                    == Entries::<V>::Ok(raw@),
                triplets::fits(raw@, rows as int, columns as int),
            decreases columns - column,
        {
            let ghost before = raw@;
            match self.collect_column(column, &mut raw) {
                Ok(()) => {},
                Err(error) => {
                    proof {
                        lemma_matrix_stops(
                            self.source,
                            self.target,
                            self.terms@,
                            (column + 1) as nat,
                            self.source.listed().len(),
                        );
                    }
                    return Err(error);
                },
            }
            column = column + 1;
        }
        let list: Vec<Triplet<V>> = triplets::accumulate(raw.as_slice(), false);
        proof {
            assert forall|i: int| 0 <= i < list@.len() implies (#[trigger] list@[i]).row < rows
                && list@[i].column < columns by {
                let row = list@[i].row as int;
                let at = list@[i].column as int;
                if triplets::values_at(raw@, row, at).len() == 0 {
                    V::lemma_zero();
                } else {
                    triplets::lemma_some_entry(raw@, row, at);
                    let k = choose|k: int|
                        0 <= k < raw@.len() && triplets::stands_at(#[trigger] raw@[k], row, at);
                    assert(raw@[k].row < rows);
                }
            }
        }
        if format == MatrixFormat::Dia {
            let offsets: Vec<i128> = bands::diagonals(&list);
            let smaller: usize = if rows <= columns {
                rows
            } else {
                columns
            };
            let count: u128 = offsets.len() as u128;
            proof {
                lemma_crosses(offsets@, list@, raw@);
                if too_scattered(raw@, rows as int, columns as int) {
                    let other = choose|other: Seq<i128>| #[trigger]
                        crosses(other, raw@) && other.len() > 1 && other.len() > (if rows
                            <= columns {
                            2 * rows
                        } else {
                            2 * columns
                        });
                    lemma_crossed_once(offsets@, other, raw@);
                    lemma_crossed_once(other, offsets@, raw@);
                }
            }
            if count > 1 && count > 2 * (smaller as u128) {
                return Err(
                    QmbedError::UnsupportedBackend(
                        "the requested operator is not usefully diagonal-banded".to_string(),
                    ),
                );
            }
        }
        let hermiticity: bool = self.checks.hermiticity;
        proof {
            operator::lemma_good_list(list@, false, rows as int, columns as int);
        }
        let matrix: Operator<V> = operator::store_list(rows, columns, list, format);
        proof {
            assert forall|row: int, at: int| matrix.inside(row, at) implies #[trigger] matrix.entry(
                row,
                at,
            ) == kept(triplets::cell_sum(raw@, row, at)) by {
                compressed::lemma_accumulated_cell(list@, raw@, false, row, at);
            }
            assert(self.assembles(&matrix, format));
        }
        if hermiticity && !matrix.is_hermitian(V::strict()) {
            return Err(QmbedError::NonHermitian);
        }
        Ok(matrix)
    }
}

/// The diagonals crossed are determined by the entries.
proof fn lemma_crossed_once<V: Scalar>(
    first: Seq<i128>,
    second: Seq<i128>,
    raw: Seq<Triplet<V>>,
)
    requires
        crosses(first, raw),
        crosses(second, raw),
    ensures
        first.len() <= second.len(),
{
    assert forall|i: int| 0 <= i < first.len() implies second.contains(#[trigger] first[i]) by {
        assert(met(raw, first[i] as int));
        let (row, column) = choose|row: int, column: int|
            !(#[trigger] triplets::cell_sum(raw, row, column)).tiny() && row - column
                == first[i] as int;
        assert(bands::lists(second, row - column));
    }
    assert(first.no_duplicates());
    assert(second.no_duplicates());
    first.unique_seq_to_set();
    second.unique_seq_to_set();
    assert(first.to_set().subset_of(second.to_set()));
    vstd::set_lib::lemma_len_subset(first.to_set(), second.to_set());
}

proof fn lemma_crosses<V: Scalar>(
    offsets: Seq<i128>,
    list: Seq<Triplet<V>>,
    raw: Seq<Triplet<V>>,
)
    requires
        triplets::accumulates(list, raw, false),
        bands::ascending(offsets),
        forall|e: int|
            0 <= e < list.len() ==> #[trigger] bands::lists(
                offsets,
                bands::diagonal_of(list[e]),
            ),
        forall|i: int|
            0 <= i < offsets.len() ==> #[trigger] bands::occupied(
                list,
                list.len() as int,
                offsets[i] as int,
            ),
    ensures
        crosses(offsets, raw),
{
    assert forall|row: int, column: int|
        !(#[trigger] triplets::cell_sum(raw, row, column)).tiny() implies bands::lists(
        offsets,
        row - column,
    ) by {
        let i = choose|i: int|
            0 <= i < list.len() && triplets::stands_at(#[trigger] list[i], row, column);
        assert(bands::lists(offsets, bands::diagonal_of(list[i])));
    }
    assert forall|i: int| 0 <= i < offsets.len() implies met(raw, #[trigger] offsets[i] as int) by {
        assert(bands::occupied(list, list.len() as int, offsets[i] as int));
        let e = choose|e: int|
            0 <= e < list.len() && bands::diagonal_of(#[trigger] list[e]) == offsets[i];
        let row = list[e].row as int;
        let column = list[e].column as int;
        assert(!triplets::cell_sum(raw, row, column).tiny());
    }
}

proof fn lemma_conservation_stops<S: Basis, T: Basis<State = S::State>, V: Scalar>(
    source: &S,
    target: &T,
    list: Seq<OperatorTerm<V>>,
    from: nat,
    upto: nat,
)
    requires
        from <= upto,
        conservation(source, target, list, from) != std::result::Result::<bool, Fault>::Ok(true),
    ensures
        conservation(source, target, list, upto) == conservation(source, target, list, from),
    decreases upto - from,
{
    if from < upto {
        lemma_conservation_stops(source, target, list, from, (upto - 1) as nat);
    }
}

proof fn lemma_term_stops<S: Basis, T: Basis<State = S::State>, V: Amplitude>(
    source: &S,
    target: &T,
    column: usize,
    term: &OperatorTerm<V>,
    from: nat,
    upto: nat,
)
    requires
        from <= upto,
        term_entries(source, target, column, term, from) is Err,
    ensures
        term_entries(source, target, column, term, upto) == term_entries(
            source,
            target,
            column,
            term,
            from,
        ),
    decreases upto - from,
{
    if from < upto {
        lemma_term_stops(source, target, column, term, from, (upto - 1) as nat);
    }
}

proof fn lemma_column_stops<S: Basis, T: Basis<State = S::State>, V: Amplitude>(
    source: &S,
    target: &T,
    column: usize,
    list: Seq<OperatorTerm<V>>,
    from: nat,
    upto: nat,
)
    requires
        from <= upto,
        column_entries(source, target, column, list, from) is Err,
    ensures
        column_entries(source, target, column, list, upto) == column_entries(
            source,
            target,
            column,
            list,
            from,
        ),
    decreases upto - from,
{
    if from < upto {
        lemma_column_stops(source, target, column, list, from, (upto - 1) as nat);
    }
}

proof fn lemma_matrix_stops<S: Basis, T: Basis<State = S::State>, V: Amplitude>(
    source: &S,
    target: &T,
    list: Seq<OperatorTerm<V>>,
    from: nat,
    upto: nat,
)
    requires
        from <= upto,
        matrix_entries(source, target, list, from) is Err,
    ensures
        matrix_entries(source, target, list, upto) == matrix_entries(source, target, list, from),
    decreases upto - from,
{
    if from < upto {
        lemma_matrix_stops(source, target, list, from, (upto - 1) as nat);
    }
}

} // verus!
