//! A basis with the terms of an operator, for callers that choose both at run time.

use std::sync::Arc;
use vstd::prelude::*;
use crate::action;
use crate::assembly::OperatorBuilder;
use crate::basis::Basis;
use crate::error::{QmbedError, Result};
use crate::error;
use crate::interop::OperatorAction;
use crate::interop;
use crate::local;
use crate::operator::{MatrixFormat, Operator};
use crate::operator;
use crate::packed::PackedBasis;
use crate::projector::BasisProjector;
use crate::projector;
use crate::scalar::{Amplitude, Scalar};
use crate::sector_shift::{BraKetTransition, Elements};
use crate::sector_shift;
use crate::terms::{AssemblyChecks, Coupling, OperatorTerm};
use crate::terms;
use crate::triplets;

verus! {

/// An assembled operator and its storage format.
#[derive(Debug)]
pub struct Materialized<V> {
    pub format: MatrixFormat,
    pub matrix: Arc<Operator<V>>,
}

/// A basis, the terms of an operator on it, and the operators assembled so far.
pub struct PackedEdModel<V> {
    basis: PackedBasis,
    terms: Vec<OperatorTerm<V>>,
    checks: AssemblyChecks,
    site_permutation: Option<Vec<usize>>,
    operators: Vec<Materialized<V>>,
}

/// Terms that can be assembled.
pub open spec fn assemblable<V: Scalar>(list: Seq<OperatorTerm<V>>) -> bool {
    forall|i: int|
        0 <= i < list.len() ==> (#[trigger] list[i]).wf() && list[i].factors().operators().len()
            < i32::MAX
}

pub open spec fn list_view(list: Option<Vec<usize>>) -> Option<Seq<usize>> {
    match list {
        Some(sites) => Some(sites@),
        None => None,
    }
}

/// All sites of the list lie below a bound.
pub open spec fn reaches_only(sites: Seq<usize>, bound: nat) -> bool {
    forall|i: int| 0 <= i < sites.len() ==> #[trigger] sites[i] < bound
}

/// The terms with their sites rearranged, where there is a rearrangement.
pub open spec fn prepared<V: Scalar>(
    before: Seq<OperatorTerm<V>>,
    permutation: Option<Seq<usize>>,
    after: Seq<OperatorTerm<V>>,
) -> bool {
    match permutation {
        None => after == before,
        Some(sites) => after.len() == before.len() && forall|i: int|
            0 <= i < after.len() ==> terms::relocated(before[i], sites, #[trigger] after[i]),
    }
}

/// All sites of a term can be rearranged.
pub open spec fn relocatable<V: Scalar>(term: OperatorTerm<V>, permutation: Seq<usize>) -> bool {
    forall|i: int|
        0 <= i < term.terms().len() ==> terms::placed(#[trigger] term.terms()[i], permutation)
}

/// The term in place `at` is the first with a site that cannot be rearranged, and the
/// error names the first such site.
pub open spec fn unprepared<V: Scalar>(
    before: Seq<OperatorTerm<V>>,
    permutation: Seq<usize>,
    at: int,
    error: QmbedError,
) -> bool {
    &&& 0 <= at < before.len()
    &&& forall|j: int| 0 <= j < at ==> relocatable(#[trigger] before[j], permutation)
    &&& exists|i: int| #[trigger]
        terms::misplaced_first(before[at].terms(), permutation, i, error)
}

/// Rearranges the sites of all terms.
pub fn relocate<V: Scalar>(list: Vec<OperatorTerm<V>>, permutation: &[usize]) -> (result: Result<
    Vec<OperatorTerm<V>>,
>)
    requires
        assemblable(list@),
    ensures
        match result {
            Ok(moved) => assemblable(moved@) && prepared(list@, Some(permutation@), moved@),
            Err(error) => exists|at: int| #[trigger] unprepared(list@, permutation@, at, error),
        },
{
    let ghost all = list@;
    let mut forward: Vec<OperatorTerm<V>> = list;
    let mut backward: Vec<OperatorTerm<V>> = Vec::new();
    while forward.len() > 0
        invariant
            forward@ == all.take(forward@.len() as int),
            forward@.len() + backward@.len() == all.len(),
            forall|i: int|
                0 <= i < backward@.len() ==> #[trigger] backward@[i] == all[all.len() - 1 - i],
        decreases forward@.len(),
    {
        let ghost before = forward@;
        if let Some(term) = forward.pop() {
            assert(term == all[before.len() - 1]);
            backward.push(term);
        }
        assert(forward@ =~= all.take(forward@.len() as int));
    }
    let mut moved: Vec<OperatorTerm<V>> = Vec::new();
    while backward.len() > 0
        invariant
            all == list@,
            assemblable(all),
            backward@.len() + moved@.len() == all.len(),
            forall|i: int|
                0 <= i < backward@.len() ==> #[trigger] backward@[i] == all[all.len() - 1 - i],
            assemblable(moved@),
            forall|i: int|
                0 <= i < moved@.len() ==> terms::relocated(
                    all[i],
                    permutation@,
                    #[trigger] moved@[i],
                ),
        decreases backward@.len(),
    {
        let ghost place = moved@.len() as int;
        if let Some(term) = backward.pop() {
            assert(term == all[place]);
            match term.with_site_permutation(permutation) {
                Ok(next) => {
                    moved.push(next);
                },
                Err(error) => {
                    proof {
                        assert forall|j: int| 0 <= j < place implies relocatable(
                            #[trigger] all[j],
                            permutation@,
                        ) by {
                            assert(terms::relocated(all[j], permutation@, moved@[j]));
                            assert forall|i: int| 0 <= i < all[j].terms().len() implies terms::placed(
                                #[trigger] all[j].terms()[i],
                                permutation@,
                            ) by {
                                assert(terms::moved_coupling(
                                    all[j].terms()[i],
                                    permutation@,
                                    moved@[j].terms()[i],
                                ));
                            }
                        }
                        assert(unprepared(all, permutation@, place, error));
                    }
                    return Err(error);
                },
            }
        }
    }
    Ok(moved)
}

/// Two matrices in the same format with the same entries.
pub open spec fn same_matrix<V: Scalar>(left: Operator<V>, right: Operator<V>) -> bool {
    &&& left.shape == right.shape
    &&& left.format == right.format
    &&& forall|row: int, column: int|
        left.inside(row, column) ==> #[trigger] left.entry(row, column) == right.entry(row, column)
}

/// Whatever a matrix answers, a copy of it answers too.
proof fn lemma_same_answer<V: Amplitude>(
    builder: OperatorBuilder<V, PackedBasis, PackedBasis>,
    format: MatrixFormat,
    kept: &Operator<V>,
    copy: &Operator<V>,
)
    requires
        builder.answers(format, Ok(*kept)),
        copy.wf(),
        same_matrix(*kept, *copy),
    ensures
        builder.answers(format, Ok(*copy)),
{
    assert forall|row: int, column: int| copy.inside(row, column) implies #[trigger] copy.entry(
        row,
        column,
    ) == kept.entry(row, column) by {
        assert(kept.inside(row, column));
    }
    if builder.checks.hermiticity {
        let tolerance = V::strict_tolerance();
        assert forall|row: int, column: int| #[trigger] copy.compared(row, column) implies
            copy.entry(row, column).near(copy.entry(column, row).mirror(), tolerance) by {
            assert(kept.compared(row, column));
            assert(copy.inside(row, column) && copy.inside(column, row));
        }
        assert(copy.hermitian(tolerance));
    }
}

impl<V: Amplitude> PackedEdModel<V> {
    pub closed spec fn space(&self) -> PackedBasis {
        self.basis
    }

    pub closed spec fn list(&self) -> Seq<OperatorTerm<V>> {
        self.terms@
    }

    pub closed spec fn wanted(&self) -> AssemblyChecks {
        self.checks
    }

    /// Where the sites of terms are moved to.
    pub closed spec fn convention(&self) -> Option<Seq<usize>> {
        list_view(self.site_permutation)
    }

    /// The operators assembled so far.
    pub closed spec fn assembled(&self) -> Seq<Materialized<V>> {
        self.operators@
    }

    /// The operator of the model before it is assembled.
    pub closed spec fn builder(&self) -> OperatorBuilder<V, PackedBasis, PackedBasis> {
        OperatorBuilder {
            source: &self.basis,
            target: &self.basis,
            terms: self.terms,
            checks: self.checks,
        }
    }

    pub open spec fn wf(&self) -> bool {
        &&& self.space().well_formed()
        &&& assemblable(self.list())
        &&& forall|i: int|
            0 <= i < self.assembled().len() ==> self.builder().answers(
                (#[trigger] self.assembled()[i]).format,
                Ok(*self.assembled()[i].matrix),
            )
        &&& forall|i: int, j: int|
            0 <= i < j < self.assembled().len() ==> (#[trigger] self.assembled()[i]).format != (
            #[trigger] self.assembled()[j]).format
    }

    /// The parts of the model that no assembly changes.
    pub open spec fn same_model(&self, other: &Self) -> bool {
        &&& self.space() == other.space()
        &&& self.list() == other.list()
        &&& self.wanted() == other.wanted()
        &&& self.convention() == other.convention()
        &&& self.builder() == other.builder()
    }

    /// The operator of a model is built on its basis from its terms with its checks.
    pub proof fn builder_holds_the_model(&self)
        ensures
            self.builder().source == self.space(),
            self.builder().target == self.space(),
            self.builder().terms@ == self.list(),
            self.builder().checks == self.wanted(),
    {
    }

    /// A model with every check.
    pub fn new(basis: PackedBasis, terms: Vec<OperatorTerm<V>>) -> (model: Self)
        requires
            basis.well_formed(),
            assemblable(terms@),
        ensures
            model.wf(),
            model.space() == basis,
            model.list() == terms@,
            model.wanted() == (AssemblyChecks {
                hermiticity: true,
                particle_conservation: true,
                symmetry_compatibility: true,
            }),
            model.convention() is None,
            model.assembled().len() == 0,
    {
        PackedEdModel {
            basis,
            terms,
            checks: AssemblyChecks::all(),
            site_permutation: None,
            operators: Vec::new(),
        }
    }

    /// Replaces the checks; nothing assembled before is kept.
    pub fn with_checks(self, checks: AssemblyChecks) -> (model: Self)
        requires
            self.wf(),
        ensures
            model.wf(),
            model.space() == self.space(),
            model.list() == self.list(),
            model.wanted() == checks,
            model.convention() == self.convention(),
            model.assembled().len() == 0,
    {
        PackedEdModel {
            basis: self.basis,
            terms: self.terms,
            checks,
            site_permutation: self.site_permutation,
            operators: Vec::new(),
        }
    }

    /// Rearranges the sites of all terms, also of those to come; nothing assembled before
    /// is kept.
    pub fn with_site_permutation(self, permutation: &[usize]) -> (result: Result<Self>)
        requires
            self.wf(),
            self.convention() matches Some(sites) ==> reaches_only(sites, permutation@.len()),
        ensures
            match result {
                Ok(model) => {
                    &&& model.wf()
                    &&& interop::is_permutation(permutation@)
                    &&& model.space() == self.space()
                    &&& prepared(self.list(), Some(permutation@), model.list())
                    &&& model.wanted() == self.wanted()
                    &&& model.convention() == Some(
                        match self.convention() {
                            Some(sites) => interop::rearranged(permutation@, sites),
                            None => permutation@,
                        },
                    )
                    &&& model.assembled().len() == 0
                },
                Err(error) => if !interop::is_permutation(permutation@) {
                    interop::misarranges(permutation@, error)
                } else {
                    exists|at: int| #[trigger]
                        unprepared(self.list(), permutation@, at, error)
                },
            },
    {
        match interop::validate_site_permutation(permutation) {
            Ok(_) => {},
            Err(error) => {
                return Err(error);
            },
        }
        let list: Vec<OperatorTerm<V>> = match relocate(self.terms, permutation) {
            Ok(list) => list,
            Err(error) => {
                return Err(error);
            },
        };
        let ghost before = list_view(self.site_permutation);
        let mut sites: Vec<usize> = Vec::new();
        match &self.site_permutation {
            Some(previous) => {
                proof {
                    assert(before == Some(previous@));
                }
                while sites.len() < previous.len()
                    invariant
                        reaches_only(previous@, permutation@.len()),
                        sites@.len() <= previous@.len(),
                        forall|i: int|
                            0 <= i < sites@.len() ==> #[trigger] sites@[i]
                                == permutation@[previous@[i] as int],
                    decreases previous@.len() - sites@.len(),
                {
                    let at: usize = sites.len();
                    assert(previous@[at as int] < permutation@.len());
                    sites.push(permutation[previous[at]]);
                }
                assert(sites@ =~= interop::rearranged(permutation@, previous@));
            },
            None => {
                while sites.len() < permutation.len()
                    invariant
                        sites@.len() <= permutation@.len(),
                        forall|i: int|
                            0 <= i < sites@.len() ==> #[trigger] sites@[i] == permutation@[i],
                    decreases permutation@.len() - sites@.len(),
                {
                    sites.push(permutation[sites.len()]);
                }
                assert(sites@ =~= permutation@);
            },
        }
        Ok(
            PackedEdModel {
                basis: self.basis,
                terms: list,
                checks: self.checks,
                site_permutation: Some(sites),
                operators: Vec::new(),
            },
        )
    }

    pub fn basis(&self) -> (basis: &PackedBasis)
        ensures
            *basis == self.space(),
    {
        &self.basis
    }

    pub fn terms(&self) -> (list: &[OperatorTerm<V>])
        ensures
            list@ == self.list(),
    {
        self.terms.as_slice()
    }

    /// The number of states.
    pub fn dimension(&self) -> (dimension: usize)
        requires
            self.wf(),
        ensures
            dimension == self.space().listed().len(),
    {
        self.basis.len()
    }

    /// All states in order.
    pub fn states(&self) -> (result: Result<Vec<u128>>)
        requires
            self.wf(),
        ensures
            result matches Ok(states) && states@ == self.space().listed(),
    {
        let length: usize = self.basis.len();
        let mut states: Vec<u128> = Vec::new();
        while states.len() < length
            invariant
                self.wf(),
                length == self.space().listed().len(),
                states@.len() <= length,
                states@ =~= self.space().listed().take(states@.len() as int),
            decreases length - states@.len(),
        {
            match self.basis.state(states.len()) {
                Ok(state) => {
                    states.push(state);
                },
                Err(error) => {
                    assert(false);
                    return Err(error);
                },
            }
        }
        assert(states@ =~= self.space().listed());
        Ok(states)
    }

    /// The matrix fits the memory model in the format.
    pub open spec fn storable(&self, format: MatrixFormat) -> bool {
        operator::storable(
            self.space().listed().len() as usize,
            self.space().listed().len() as usize,
            format,
        )
    }

    fn can_store(&self, format: MatrixFormat) -> (fits: bool)
        requires
            self.space().well_formed(),
        ensures
            fits == self.storable(format),
            self.space().listed().len() <= usize::MAX,
    {
        let rows: usize = self.basis.len();
        match format {
            MatrixFormat::Dense => rows.checked_mul(rows).is_some(),
            MatrixFormat::Csc => rows < usize::MAX,
            MatrixFormat::Csr => rows < usize::MAX,
            _ => true,
        }
    }

    /// An operator in the format has been assembled before.
    pub open spec fn keeps(&self, format: MatrixFormat, matrix: Operator<V>) -> bool {
        exists|i: int|
            0 <= i < self.assembled().len() && (#[trigger] self.assembled()[i]).format == format
                && *self.assembled()[i].matrix == matrix
    }

    /// Nothing was assembled anew, or one operator in a format that was missing.
    pub open spec fn grown_from(
        &self,
        before: &Self,
        format: MatrixFormat,
        matrix: Arc<Operator<V>>,
    ) -> bool {
        ||| self.assembled() == before.assembled()
        ||| {
            &&& self.assembled() == before.assembled().push(Materialized { format, matrix })
            &&& forall|i: int|
                0 <= i < before.assembled().len() ==> (#[trigger] before.assembled()[i]).format
                    != format
        }
    }

    /// The operator of the model in a storage format, assembled at most once.
    pub fn materialized(&mut self, format: MatrixFormat) -> (result: Result<Arc<Operator<V>>>)
        requires
            old(self).wf(),
        ensures
            final(self).wf(),
            final(self).same_model(old(self)),
            match result {
                Ok(matrix) => {
                    &&& old(self).builder().answers(format, Ok(*matrix))
                    &&& final(self).keeps(format, *matrix)
                    &&& final(self).grown_from(old(self), format, matrix)
                },
                Err(error) => {
                    &&& final(self).assembled() == old(self).assembled()
                    &&& if old(self).storable(format) {
                        old(self).builder().answers(format, Err(error))
                    } else {
                        error is UnsupportedBackend
                    }
                },
            },
    {
        let ghost before = *self;
        let mut index: usize = 0;
        while index < self.operators.len()
            invariant
                *self == before,
                before == *old(self),
                before.wf(),
                index <= self.operators@.len(),
                forall|i: int|
                    0 <= i < index ==> (#[trigger] before.assembled()[i]).format != format,
            decreases self.operators@.len() - index,
        {
            if self.operators[index].format == format {
                assert(before.assembled()[index as int].format == format);
                return Ok(self.operators[index].matrix.clone());
            }
            index = index + 1;
        }
        if !self.can_store(format) {
            return Err(
                QmbedError::UnsupportedBackend("the operator is too large to be stored".to_string()),
            );
        }
        let mut list: Vec<OperatorTerm<V>> = Vec::new();
        std::mem::swap(&mut list, &mut self.terms);
        let builder: OperatorBuilder<V, PackedBasis, PackedBasis> = OperatorBuilder {
            source: &self.basis,
            target: &self.basis,
            terms: list,
            checks: self.checks,
        };
        assert(builder == before.builder());
        let result: Result<Operator<V>> = builder.assemble(format);
        self.terms = builder.terms;
        match result {
            Ok(operator) => {
                let matrix: Arc<Operator<V>> = Arc::new(operator);
                self.operators.push(Materialized { format, matrix: matrix.clone() });
                proof {
                    let last = self.assembled().len() - 1;
                    assert(self.assembled()[last].format == format);
                }
                Ok(matrix)
            },
            Err(error) => Err(error),
        }
    }

    /// An operator of its own, in a storage format. What is assembled for it is kept.
    pub fn materialize(&mut self, format: MatrixFormat) -> (result: Result<Operator<V>>)
        requires
            old(self).wf(),
        ensures
            final(self).wf(),
            final(self).same_model(old(self)),
            match result {
                Ok(matrix) => {
                    &&& old(self).builder().answers(format, Ok(matrix))
                    &&& exists|kept: Arc<Operator<V>>| #[trigger]
                        final(self).grown_from(old(self), format, kept) && final(self).keeps(
                            format,
                            *kept,
                        ) && same_matrix(*kept, matrix)
                },
                Err(error) => {
                    &&& final(self).assembled() == old(self).assembled()
                    &&& if old(self).storable(format) {
                        old(self).builder().answers(format, Err(error))
                    } else {
                        error is UnsupportedBackend
                    }
                },
            },
    {
        match self.materialized(format) {
            Ok(kept) => {
                let matrix: Operator<V> = kept.duplicate();
                proof {
                    assert forall|row: int, column: int| matrix.inside(row, column) implies
                        #[trigger] matrix.entry(row, column) == kept.entry(row, column) by {
                        assert(kept.inside(row, column));
                    }
                    lemma_same_answer(old(self).builder(), format, &*kept, &matrix);
                    assert(self.grown_from(old(self), format, kept));
                }
                Ok(matrix)
            },
            Err(error) => Err(error),
        }
    }

    /// Moves the sites of terms as the model does.
    fn prepare_terms(&self, list: Vec<OperatorTerm<V>>) -> (result: Result<Vec<OperatorTerm<V>>>)
        requires
            assemblable(list@),
        ensures
            match result {
                Ok(after) => assemblable(after@) && prepared(list@, self.convention(), after@),
                Err(error) => self.convention() is Some && exists|at: int| #[trigger]
                    unprepared(list@, self.convention()->0, at, error),
            },
    {
        match &self.site_permutation {
            Some(permutation) => {
                assert(self.convention() == Some(permutation@));
                match relocate(list, permutation.as_slice()) {
                    Ok(after) => Ok(after),
                    Err(error) => {
                        proof {
                            let at = choose|at: int| #[trigger]
                                unprepared(list@, permutation@, at, error);
                            assert(unprepared(list@, self.convention()->0, at, error));
                        }
                        Err(error)
                    },
                }
            },
            None => Ok(list),
        }
    }

    /// What assembling terms of the caller gives.
    pub open spec fn assembles_terms(
        &self,
        list: Seq<OperatorTerm<V>>,
        checks: AssemblyChecks,
        format: MatrixFormat,
        result: Result<Operator<V>>,
    ) -> bool {
        ||| result is Err && self.convention() is Some && exists|at: int| #[trigger]
            unprepared(list, self.convention()->0, at, result->Err_0)
        ||| exists|builder: OperatorBuilder<V, PackedBasis, PackedBasis>|
            {
                &&& builder.source == self.space()
                &&& builder.target == self.space()
                &&& builder.checks == checks
                &&& #[trigger] prepared(list, self.convention(), builder.terms@)
                &&& if self.storable(format) {
                    builder.answers(format, result)
                } else {
                    result matches Err(QmbedError::UnsupportedBackend(_))
                }
            }
    }

    /// Assembles terms of the caller on the basis of the model, with its site convention.
    pub fn assemble_terms(
        &self,
        list: Vec<OperatorTerm<V>>,
        checks: AssemblyChecks,
        format: MatrixFormat,
    ) -> (result: Result<Operator<V>>)
        requires
            self.wf(),
            assemblable(list@),
        ensures
            self.assembles_terms(list@, checks, format, result),
    {
        let after: Vec<OperatorTerm<V>> = match self.prepare_terms(list) {
            Ok(after) => after,
            Err(error) => {
                return Err(error);
            },
        };
        let builder: OperatorBuilder<V, PackedBasis, PackedBasis> = OperatorBuilder {
            source: &self.basis,
            target: &self.basis,
            terms: after,
            checks,
        };
        let result: Result<Operator<V>> = if self.can_store(format) {
            builder.assemble(format)
        } else {
            Err(
                QmbedError::UnsupportedBackend("the operator is too large to be stored".to_string()),
            )
        };
        assert(prepared(list@, self.convention(), builder.terms@));
        result
    }

    /// Applies terms of the caller to vectors, without a dense matrix.
    pub fn apply_terms_batch(
        &self,
        list: Vec<OperatorTerm<V>>,
        inputs: &[Vec<V>],
        action: OperatorAction,
    ) -> (result: Result<Vec<Vec<V>>>)
        requires
            self.wf(),
            assemblable(list@),
        ensures
            match result {
                Ok(outputs) => exists|matrix: Operator<V>|
                    {
                        &&& #[trigger] self.assembles_terms(
                            list@,
                            unchecked(),
                            MatrixFormat::MatrixFree,
                            Ok(matrix),
                        )
                        &&& batch_applied(&matrix, inputs@, action, outputs@)
                    },
                Err(error) => {
                    ||| self.assembles_terms(
                        list@,
                        unchecked(),
                        MatrixFormat::MatrixFree,
                        Err(error),
                    )
                    ||| error is DimensionMismatch && exists|matrix: Operator<V>| #[trigger]
                        self.assembles_terms(
                            list@,
                            unchecked(),
                            MatrixFormat::MatrixFree,
                            Ok(matrix),
                        ) && !batch_fits(&matrix, inputs@, action)
                },
            },
    {
        let ghost all = list@;
        let matrix: Operator<V> = match self.assemble_terms(
            list,
            AssemblyChecks::none(),
            MatrixFormat::MatrixFree,
        ) {
            Ok(matrix) => matrix,
            Err(error) => {
                return Err(error);
            },
        };
        assert(self.assembles_terms(all, unchecked(), MatrixFormat::MatrixFree, Ok(matrix)));
        apply_operator_batch(&matrix, inputs, action)
    }

    /// Applies the operator of the model to vectors, without a dense matrix.
    pub fn apply_batch(&mut self, inputs: &[Vec<V>], action: OperatorAction) -> (result: Result<
        Vec<Vec<V>>,
    >)
        requires
            old(self).wf(),
        ensures
            final(self).wf(),
            final(self).same_model(old(self)),
            match result {
                Ok(outputs) => exists|matrix: Operator<V>| #[trigger]
                    old(self).builder().answers(MatrixFormat::MatrixFree, Ok(matrix))
                        && batch_applied(&matrix, inputs@, action, outputs@),
                Err(error) => {
                    ||| old(self).builder().answers(MatrixFormat::MatrixFree, Err(error))
                    ||| error is DimensionMismatch && exists|matrix: Operator<V>| #[trigger]
                        old(self).builder().answers(MatrixFormat::MatrixFree, Ok(matrix))
                            && !batch_fits(&matrix, inputs@, action)
                },
            },
    {
        let ghost before = *self;
        let matrix: Arc<Operator<V>> = match self.materialized(MatrixFormat::MatrixFree) {
            Ok(matrix) => matrix,
            Err(error) => {
                return Err(error);
            },
        };
        assert(before.builder().answers(MatrixFormat::MatrixFree, Ok(*matrix)));
        apply_operator_batch(&matrix, inputs, action)
    }

    fn same_convention(&self, other: &Self) -> (same: bool)
        ensures
            same == (self.convention() == other.convention()),
    {
        match (&self.site_permutation, &other.site_permutation) {
            (None, None) => true,
            (Some(first), Some(second)) => {
                if first.len() != second.len() {
                    return false;
                }
                let mut index: usize = 0;
                while index < first.len()
                    invariant
                        first@.len() == second@.len(),
                        index <= first@.len(),
                        self.convention() == Some(first@),
                        other.convention() == Some(second@),
                        forall|i: int| 0 <= i < index ==> #[trigger] first@[i] == second@[i],
                    decreases first@.len() - index,
                {
                    if first[index] != second[index] {
                        assert(first@[index as int] != second@[index as int]);
                        return false;
                    }
                    index = index + 1;
                }
                assert(first@ =~= second@);
                true
            },
            _ => false,
        }
    }

    /// The states of this model as states of another one.
    pub fn projector_to(&self, parent: &Self) -> (result: Result<BasisProjector<V>>)
        requires
            self.wf(),
            parent.wf(),
        ensures
            match result {
                Ok(projector) => {
                    &&& self.convention() == parent.convention()
                    &&& projector::lists_all(&self.space(), &parent.space())
                    &&& projector.wf()
                    &&& projector.rows() == parent.space().listed().len()
                    &&& projector.columns() == self.space().listed().len()
                    &&& triplets::same_values(
                        projector.entries(),
                        projector::shares(
                            &self.space(),
                            &parent.space(),
                            parent.space().listed().len(),
                        ),
                    )
                },
                Err(error) => if self.convention() != parent.convention() {
                    error is InvalidOptions
                } else if !projector::lists_all(&self.space(), &parent.space()) {
                    error is StateNotInBasis
                } else {
                    error is DimensionMismatch && !operator::acceptable(
                        projector::shares::<V, PackedBasis, PackedBasis>(
                            &self.space(),
                            &parent.space(),
                            parent.space().listed().len(),
                        ),
                        parent.space().listed().len() as int,
                        self.space().listed().len() as int,
                    )
                },
            },
    {
        if !self.same_convention(parent) {
            return Err(different_convention());
        }
        BasisProjector::between(&self.basis, &parent.basis)
    }

    /// What mapping vectors through the projector to another model gives; `lifting` tells
    /// in which direction.
    pub open spec fn mapped(
        &self,
        parent: &Self,
        vectors: Seq<Vec<V>>,
        lifting: bool,
        result: Result<Vec<Vec<V>>>,
    ) -> bool {
        exists|projector: BasisProjector<V>|
            {
                &&& projector.wf()
                &&& projector.rows() == parent.space().listed().len()
                &&& projector.columns() == self.space().listed().len()
                &&& triplets::same_values(
                    #[trigger] projector.entries(),
                    projector::shares(
                        &self.space(),
                        &parent.space(),
                        parent.space().listed().len(),
                    ),
                )
                &&& match result {
                    Ok(list) => list@.len() == vectors.len() && forall|i: int|
                        0 <= i < list@.len() ==> if lifting {
                            (#[trigger] vectors[i])@.len() == projector.columns() && list@[i]@
                                == projector.lift(vectors[i]@)
                        } else {
                            vectors[i]@.len() == projector.rows() && list@[i]@
                                == projector.projection(vectors[i]@)
                        },
                    Err(error) => error is DimensionMismatch && exists|i: int|
                        0 <= i < vectors.len() && (#[trigger] vectors[i])@.len() != (if lifting {
                            projector.columns()
                        } else {
                            projector.rows()
                        }),
                }
            }
    }

    /// The states of this model do not map into the other model, and the error says why.
    pub open spec fn unmapped(&self, parent: &Self, error: QmbedError) -> bool {
        if self.convention() != parent.convention() {
            error is InvalidOptions
        } else if !projector::lists_all(&self.space(), &parent.space()) {
            error is StateNotInBasis
        } else {
            error is DimensionMismatch && !operator::acceptable(
                projector::shares::<V, PackedBasis, PackedBasis>(
                    &self.space(),
                    &parent.space(),
                    parent.space().listed().len(),
                ),
                parent.space().listed().len() as int,
                self.space().listed().len() as int,
            )
        }
    }

    /// Writes vectors of this model as vectors of another one.
    pub fn lift_to_batch(&self, parent: &Self, vectors: &[Vec<V>]) -> (result: Result<Vec<Vec<V>>>)
        requires
            self.wf(),
            parent.wf(),
        ensures
            (result is Err && self.unmapped(parent, result->Err_0)) || (self.convention()
                == parent.convention() && self.mapped(parent, vectors@, true, result)),
    {
        let projector: BasisProjector<V> = match self.projector_to(parent) {
            Ok(projector) => projector,
            Err(error) => {
                return Err(error);
            },
        };
        let result: Result<Vec<Vec<V>>> = projector.lift_batch(vectors);
        proof {
            let list = projector.entries();
            assert(self.mapped(parent, vectors@, true, result));
        }
        result
    }

    /// Projects vectors of another model into this one.
    pub fn project_from_batch(&self, parent: &Self, vectors: &[Vec<V>]) -> (result: Result<
        Vec<Vec<V>>,
    >)
        requires
            self.wf(),
            parent.wf(),
        ensures
            (result is Err && self.unmapped(parent, result->Err_0)) || (self.convention()
                == parent.convention() && self.mapped(parent, vectors@, false, result)),
    {
        let projector: BasisProjector<V> = match self.projector_to(parent) {
            Ok(projector) => projector,
            Err(error) => {
                return Err(error);
            },
        };
        let result: Result<Vec<Vec<V>>> = projector.project_batch(vectors);
        proof {
            let list = projector.entries();
            assert(self.mapped(parent, vectors@, false, result));
        }
        result
    }
}

/// No check.
pub open spec fn unchecked() -> AssemblyChecks {
    AssemblyChecks {
        hermiticity: false,
        particle_conservation: false,
        symmetry_compatibility: false,
    }
}

fn different_convention() -> (error: QmbedError)
    ensures
        error is InvalidOptions,
{
    QmbedError::InvalidOptions(
        "models must use the same site permutation for cross-basis operations".to_string(),
    )
}

/// The length of the vectors that an algebraic view of an operator takes.
pub open spec fn input_length<V: Scalar>(matrix: &Operator<V>, action: OperatorAction) -> int {
    match action {
        OperatorAction::Normal => matrix.columns(),
        OperatorAction::Conjugate => matrix.columns(),
        OperatorAction::Transpose => matrix.rows(),
        OperatorAction::Adjoint => matrix.rows(),
    }
}

/// What an algebraic view of an operator makes of a vector.
pub open spec fn acted<V: Scalar>(
    matrix: &Operator<V>,
    action: OperatorAction,
    input: Seq<V>,
) -> Seq<V> {
    match action {
        OperatorAction::Normal => matrix.image(input),
        OperatorAction::Conjugate => action::mirrored(matrix.image(action::mirrored(input))),
        OperatorAction::Transpose => matrix.transposed_image(input),
        OperatorAction::Adjoint => action::mirrored(
            matrix.transposed_image(action::mirrored(input)),
        ),
    }
}

/// Every vector has the length that the operator takes.
pub open spec fn batch_fits<V: Scalar>(
    matrix: &Operator<V>,
    inputs: Seq<Vec<V>>,
    action: OperatorAction,
) -> bool {
    forall|i: int|
        0 <= i < inputs.len() ==> (#[trigger] inputs[i])@.len() == input_length(matrix, action)
}

/// The images of vectors under an algebraic view of an operator.
pub open spec fn batch_applied<V: Scalar>(
    matrix: &Operator<V>,
    inputs: Seq<Vec<V>>,
    action: OperatorAction,
    outputs: Seq<Vec<V>>,
) -> bool {
    &&& batch_fits(matrix, inputs, action)
    &&& outputs.len() == inputs.len()
    &&& forall|i: int|
        0 <= i < outputs.len() ==> (#[trigger] outputs[i])@ == acted(matrix, action, inputs[i]@)
}

/// Applies an algebraic view of an operator to vectors.
pub fn apply_operator_batch<V: Scalar>(
    matrix: &Operator<V>,
    inputs: &[Vec<V>],
    action: OperatorAction,
) -> (result: Result<Vec<Vec<V>>>)
    requires
        matrix.wf(),
    ensures
        match result {
            Ok(outputs) => batch_applied(matrix, inputs@, action, outputs@),
            Err(error) => error is DimensionMismatch && !batch_fits(matrix, inputs@, action),
        },
{
    let (rows, columns): (usize, usize) = matrix.shape;
    let (taken, given): (usize, usize) = match action {
        OperatorAction::Normal => (columns, rows),
        OperatorAction::Conjugate => (columns, rows),
        OperatorAction::Transpose => (rows, columns),
        OperatorAction::Adjoint => (rows, columns),
    };
    let mut outputs: Vec<Vec<V>> = Vec::new();
    while outputs.len() < inputs.len()
        invariant
            matrix.wf(),
            matrix.shape == (rows, columns),
            taken == input_length(matrix, action),
            given == (match action {
                OperatorAction::Normal => rows,
                OperatorAction::Conjugate => rows,
                OperatorAction::Transpose => columns,
                OperatorAction::Adjoint => columns,
            }),
            outputs@.len() <= inputs@.len(),
            forall|i: int| 0 <= i < outputs@.len() ==> (#[trigger] inputs@[i])@.len() == taken,
            forall|i: int|
                0 <= i < outputs@.len() ==> (#[trigger] outputs@[i])@ == acted(
                    matrix,
                    action,
                    inputs@[i]@,
                ),
        decreases inputs@.len() - outputs@.len(),
    {
        let input: &Vec<V> = &inputs[outputs.len()];
        if input.len() != taken {
            assert(inputs@[outputs@.len() as int]@.len() != taken);
            return Err(
                QmbedError::DimensionMismatch(
                    error::weave(
                        vec!["operator action needs input length ", ", got "],
                        vec![taken, input.len()],
                    ),
                ),
            );
        }
        let mut output: Vec<V> = operator::zeros(given);
        let done: Result<()> = match action {
            OperatorAction::Normal => matrix.apply(input.as_slice(), output.as_mut_slice()),
            OperatorAction::Transpose => matrix.apply_transpose(
                input.as_slice(),
                output.as_mut_slice(),
            ),
            OperatorAction::Conjugate => {
                let mirror: Vec<V> = action::conjugates(input.as_slice());
                match matrix.apply(mirror.as_slice(), output.as_mut_slice()) {
                    Ok(()) => {
                        output = action::conjugates(output.as_slice());
                        Ok(())
                    },
                    Err(error) => Err(error),
                }
            },
            OperatorAction::Adjoint => matrix.apply_adjoint(
                input.as_slice(),
                output.as_mut_slice(),
            ),
        };
        match done {
            Ok(()) => {},
            Err(error) => {
                assert(false);
                return Err(error);
            },
        }
        outputs.push(output);
    }
    Ok(outputs)
}

/// The images of vectors of one model in another.
pub open spec fn shifted_all<V: Amplitude>(
    source: PackedBasis,
    target: PackedBasis,
    list: Seq<OperatorTerm<V>>,
    inputs: Seq<Vec<V>>,
    outputs: Seq<Vec<V>>,
) -> bool {
    &&& outputs.len() == inputs.len()
    &&& forall|i: int|
        0 <= i < outputs.len() ==> shifted(source, target, list, inputs[i]@, #[trigger] outputs[i]@)
}

/// The image of a vector of one model in another.
pub open spec fn shifted<V: Amplitude>(
    source: PackedBasis,
    target: PackedBasis,
    list: Seq<OperatorTerm<V>>,
    input: Seq<V>,
    output: Seq<V>,
) -> bool {
    let whole = sector_shift::columns_shift(&source, &target, list, input, 0);
    &&& input.len() == source.listed().len()
    &&& output.len() == target.listed().len()
    &&& whole is Ok
    &&& sector_shift::holds(output, whole->Ok_0)
}

/// A vector of one model has no image in another, and the error says why.
pub open spec fn unshifted<V: Amplitude>(
    source: PackedBasis,
    target: PackedBasis,
    list: Seq<OperatorTerm<V>>,
    input: Seq<V>,
    error: QmbedError,
) -> bool {
    if input.len() != source.listed().len() {
        error is DimensionMismatch
    } else {
        let whole = sector_shift::columns_shift(&source, &target, list, input, 0);
        whole is Err && local::reports(error, whole->Err_0)
    }
}

/// The matrix elements of the couplings of a term from place `at` on.
pub open spec fn coupling_elements<B: Basis, V: Amplitude>(
    basis: &B,
    ket: B::State,
    term: &OperatorTerm<V>,
    at: int,
) -> Elements<B::State, V>
    decreases term.terms().len() - at,
{
    if at >= term.terms().len() {
        Ok(Seq::empty())
    } else {
        sector_shift::joined(
            match basis.action(
                ket,
                terms::letters(term.factors().operators()),
                term.factors().boundary(),
                term.terms()[at].sites@,
            ) {
                Ok(list) => Ok(sector_shift::elements(list, ket, term.terms()[at].coefficient)),
                Err(fault) => Err(fault),
            },
            coupling_elements(basis, ket, term, at + 1),
        )
    }
}

/// The matrix elements of the terms from place `at` on.
pub open spec fn ket_elements<B: Basis, V: Amplitude>(
    basis: &B,
    ket: B::State,
    list: Seq<OperatorTerm<V>>,
    at: int,
) -> Elements<B::State, V>
    decreases list.len() - at,
{
    if at >= list.len() {
        Ok(Seq::empty())
    } else {
        sector_shift::joined(
            coupling_elements(basis, ket, &list[at], 0),
            ket_elements(basis, ket, list, at + 1),
        )
    }
}

/// The first states have matrix elements, and the next one has none, for the reason that
/// the error gives.
pub open spec fn kets_until<V: Amplitude>(
    basis: PackedBasis,
    kets: Seq<u128>,
    list: Seq<OperatorTerm<V>>,
    at: int,
    error: QmbedError,
) -> bool {
    &&& 0 <= at < kets.len()
    &&& forall|j: int|
        0 <= j < at ==> ket_elements(&basis, #[trigger] kets[j], list, 0) is Ok
    &&& ket_elements(&basis, kets[at], list, 0) is Err
    &&& local::reports(error, ket_elements(&basis, kets[at], list, 0)->Err_0)
}

/// The matrix elements of terms on one state.
fn collect_ket<B: Basis, V: Amplitude>(basis: &B, ket: B::State, list: &Vec<OperatorTerm<V>>) -> (result:
    Result<Vec<BraKetTransition<B::State, V>>>)
    requires
        basis.well_formed(),
        basis.accepts(ket),
        assemblable(list@),
    ensures
        match result {
            Ok(table) => ket_elements(basis, ket, list@, 0) == Elements::<B::State, V>::Ok(table@),
            Err(error) => ket_elements(basis, ket, list@, 0) is Err && local::reports(
                error,
                ket_elements(basis, ket, list@, 0)->Err_0,
            ),
        },
{
    let ghost whole = ket_elements(basis, ket, list@, 0);
    let mut table: Vec<BraKetTransition<B::State, V>> = Vec::new();
    let mut index: usize = 0;
    proof {
        if let Ok(all) = whole {
            assert(table@ + all =~= all);
        }
    }
    while index < list.len()
        invariant
            basis.well_formed(),
            basis.accepts(ket),
            assemblable(list@),
            index <= list@.len(),
            whole == ket_elements(basis, ket, list@, 0),
            whole == sector_shift::joined(
                Elements::Ok(table@),
                ket_elements(basis, ket, list@, index as int),
            ),
        decreases list@.len() - index,
    {
        let term: &OperatorTerm<V> = &list[index];
        let couplings: &[Coupling<V>] = term.couplings();
        let ghost rest = ket_elements(basis, ket, list@, index + 1);
        let ghost part = coupling_elements(basis, ket, term, 0);
        let ghost start = table@;
        let ghost mut inner: Seq<BraKetTransition<B::State, V>> = Seq::empty();
        let mut at: usize = 0;
        proof {
            assert(start + inner =~= start);
            if let Ok(all) = part {
                assert(inner + all =~= all);
            }
        }
        while at < couplings.len()
            invariant
                basis.well_formed(),
                basis.accepts(ket),
                term.wf(),
                couplings@ == term.terms(),
                at <= couplings@.len(),
                table@ == start + inner,
                whole == ket_elements(basis, ket, list@, 0),
                whole == sector_shift::joined(
                    Elements::Ok(start),
                    sector_shift::joined(part, rest),
                ),
                part == sector_shift::joined(
                    Elements::Ok(inner),
                    coupling_elements(basis, ket, term, at as int),
                ),
            decreases couplings@.len() - at,
        {
            let ghost later = coupling_elements(basis, ket, term, at + 1);
            let coupling: &Coupling<V> = &couplings[at];
            match basis.unreduced_transitions(
                ket,
                term.product().symbols(),
                term.product().split(),
                coupling.sites.as_slice(),
            ) {
                Ok(branches) => {
                    let ghost step = sector_shift::elements(
                        local::transitions_view(branches@),
                        ket,
                        coupling.coefficient,
                    );
                    sector_shift::push_elements(&branches, ket, coupling.coefficient, &mut table);
                    proof {
                        sector_shift::lemma_joined(inner, step, later);
                        assert((start + inner) + step =~= start + (inner + step));
                        inner = inner + step;
                    }
                },
                Err(error) => {
                    return Err(error);
                },
            }
            at = at + 1;
        }
        proof {
            assert(inner + Seq::<BraKetTransition<B::State, V>>::empty() =~= inner);
            sector_shift::lemma_joined(start, inner, rest);
        }
        index = index + 1;
    }
    assert(table@ + Seq::<BraKetTransition<B::State, V>>::empty() =~= table@);
    Ok(table)
}

/// The first vectors have images, and the next one has none, for the reason that the error
/// gives.
pub open spec fn shifts_until<V: Amplitude>(
    source: PackedBasis,
    target: PackedBasis,
    list: Seq<OperatorTerm<V>>,
    inputs: Seq<Vec<V>>,
    at: int,
    error: QmbedError,
) -> bool {
    &&& 0 <= at < inputs.len()
    &&& unshifted(source, target, list, inputs[at]@, error)
    &&& exists|outputs: Seq<Vec<V>>| #[trigger]
        shifted_all(source, target, list, inputs.take(at), outputs)
}

impl<V: Amplitude> PackedEdModel<V> {
    /// What applying terms between two models gives.
    pub open spec fn applies_from(
        &self,
        source: &Self,
        list: Seq<OperatorTerm<V>>,
        inputs: Seq<Vec<V>>,
        result: Result<Vec<Vec<V>>>,
    ) -> bool {
        ||| result is Err && self.convention() is Some && exists|at: int| #[trigger]
            unprepared(list, self.convention()->0, at, result->Err_0)
        ||| exists|after: Seq<OperatorTerm<V>>|
            {
                &&& #[trigger] prepared(list, self.convention(), after)
                &&& match result {
                    Ok(outputs) => shifted_all(
                        source.space(),
                        self.space(),
                        after,
                        inputs,
                        outputs@,
                    ),
                    Err(error) => exists|i: int| #[trigger]
                        shifts_until(source.space(), self.space(), after, inputs, i, error),
                }
            }
    }

    /// Applies terms to vectors of another model, with the images in this one.
    pub fn apply_terms_from_batch(
        &self,
        source: &Self,
        list: Vec<OperatorTerm<V>>,
        inputs: &[Vec<V>],
    ) -> (result: Result<Vec<Vec<V>>>)
        requires
            self.wf(),
            source.wf(),
            assemblable(list@),
        ensures
            if self.convention() != source.convention() {
                result matches Err(QmbedError::InvalidOptions(_))
            } else {
                self.applies_from(source, list@, inputs@, result)
            },
    {
        if !self.same_convention(source) {
            return Err(different_convention());
        }
        let after: Vec<OperatorTerm<V>> = match self.prepare_terms(list) {
            Ok(after) => after,
            Err(error) => {
                return Err(error);
            },
        };
        assert(prepared(list@, self.convention(), after@));
        let height: usize = self.basis.len();
        let mut outputs: Vec<Vec<V>> = Vec::new();
        while outputs.len() < inputs.len()
            invariant
                self.wf(),
                source.wf(),
                self.convention() == source.convention(),
                assemblable(after@),
                prepared(list@, self.convention(), after@),
                height == self.space().listed().len(),
                outputs@.len() <= inputs@.len(),
                forall|i: int|
                    0 <= i < outputs@.len() ==> shifted(
                        source.space(),
                        self.space(),
                        after@,
                        inputs@[i]@,
                        #[trigger] outputs@[i]@,
                    ),
            decreases inputs@.len() - outputs@.len(),
        {
            let input: &Vec<V> = &inputs[outputs.len()];
            let mut output: Vec<V> = operator::zeros(height);
            match sector_shift::apply_sector_shift(
                &source.basis,
                &self.basis,
                after.as_slice(),
                input.as_slice(),
                output.as_mut_slice(),
            ) {
                Ok(()) => {},
                Err(error) => {
                    proof {
                        let at = outputs@.len() as int;
                        assert(shifted_all(
                            source.space(),
                            self.space(),
                            after@,
                            inputs@.take(at),
                            outputs@,
                        ));
                        assert(shifts_until(
                            source.space(),
                            self.space(),
                            after@,
                            inputs@,
                            at,
                            error,
                        ));
                    }
                    return Err(error);
                },
            }
            outputs.push(output);
        }
        Ok(outputs)
    }

    /// What the matrix elements of terms on given states are.
    pub open spec fn tabulates(
        &self,
        list: Seq<OperatorTerm<V>>,
        kets: Seq<u128>,
        result: Result<Vec<Vec<BraKetTransition<u128, V>>>>,
    ) -> bool {
        ||| result is Err && self.convention() is Some && exists|at: int| #[trigger]
            unprepared(list, self.convention()->0, at, result->Err_0)
        ||| exists|after: Seq<OperatorTerm<V>>|
            {
                &&& #[trigger] prepared(list, self.convention(), after)
                &&& match result {
                    Ok(tables) => tables@.len() == kets.len() && forall|i: int|
                        0 <= i < tables@.len() ==> ket_elements(&self.space(), kets[i], after, 0)
                            == Elements::<u128, V>::Ok((#[trigger] tables@[i])@),
                    Err(error) => exists|i: int| #[trigger]
                        kets_until(self.space(), kets, after, i, error),
                }
            }
    }

    /// The matrix elements of terms on given states, without symmetry reduction.
    pub fn bra_ket_terms(&self, list: Vec<OperatorTerm<V>>, kets: &[u128]) -> (result: Result<
        Vec<Vec<BraKetTransition<u128, V>>>,
    >)
        requires
            self.wf(),
            assemblable(list@),
            forall|i: int| 0 <= i < kets@.len() ==> self.space().accepts(#[trigger] kets@[i]),
        ensures
            self.tabulates(list@, kets@, result),
    {
        let after: Vec<OperatorTerm<V>> = match self.prepare_terms(list) {
            Ok(after) => after,
            Err(error) => {
                return Err(error);
            },
        };
        assert(prepared(list@, self.convention(), after@));
        let mut tables: Vec<Vec<BraKetTransition<u128, V>>> = Vec::new();
        while tables.len() < kets.len()
            invariant
                self.wf(),
                assemblable(after@),
                prepared(list@, self.convention(), after@),
                forall|i: int| 0 <= i < kets@.len() ==> self.space().accepts(#[trigger] kets@[i]),
                tables@.len() <= kets@.len(),
                forall|i: int|
                    0 <= i < tables@.len() ==> ket_elements(&self.space(), kets@[i], after@, 0)
                        == Elements::<u128, V>::Ok((#[trigger] tables@[i])@),
            decreases kets@.len() - tables@.len(),
        {
            match collect_ket(&self.basis, kets[tables.len()], &after) {
                Ok(table) => {
                    tables.push(table);
                },
                Err(error) => {
                    proof {
                        let at = tables@.len() as int;
                        assert forall|j: int| 0 <= j < at implies ket_elements(
                            &self.space(),
                            #[trigger] kets@[j],
                            after@,
                            0,
                        ) is Ok by {
                            assert(ket_elements(&self.space(), kets@[j], after@, 0)
                                == Elements::<u128, V>::Ok(tables@[j]@));
                        }
                        assert(kets_until(self.space(), kets@, after@, at, error));
                    }
                    return Err(error);
                },
            }
        }
        Ok(tables)
    }
}

} // verus!
