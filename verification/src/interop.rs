//! Site permutations and the algebraic views of an operator.

use vstd::prelude::*;
use crate::error::{QmbedError, Result};
pub use crate::model::PackedEdModel;

verus! {

/// Algebraic view used when applying a temporary operator.
#[derive(Clone, Copy, Debug, PartialEq, Eq, Structural)]
pub enum OperatorAction {
    Normal,
    Transpose,
    Conjugate,
    Adjoint,
}

impl Default for OperatorAction {
    fn default() -> (action: OperatorAction)
        ensures
            action == OperatorAction::Normal,
    {
        OperatorAction::Normal
    }
}

/// A rearrangement of the sites below its length.
pub open spec fn is_permutation(list: Seq<usize>) -> bool {
    &&& forall|i: int| 0 <= i < list.len() ==> #[trigger] list[i] < list.len()
    &&& list.no_duplicates()
}

/// Why a list is no rearrangement: the error names the first site that is not below the
/// length, or else two places hold the same site.
pub open spec fn misarranges(list: Seq<usize>, error: QmbedError) -> bool {
    match error {
        QmbedError::InvalidSite { site, sites } => {
            &&& sites == list.len()
            &&& exists|i: int|
                0 <= i < list.len() && #[trigger] list[i] == site && site >= sites && forall|
                    j: int,
                |
                    0 <= j < i ==> #[trigger] list[j] < sites
        },
        QmbedError::InvalidOptions(_) => {
            &&& forall|i: int| 0 <= i < list.len() ==> #[trigger] list[i] < list.len()
            &&& !list.no_duplicates()
        },
        _ => false,
    }
}

/// The list moves every site to exactly one site.
pub fn validate_site_permutation(permutation: &[usize]) -> (result: Result<()>)
    ensures
        match result {
            Ok(_) => is_permutation(permutation@),
            Err(error) => misarranges(permutation@, error),
        },
{
    let sites: usize = permutation.len();
    let mut index: usize = 0;
    while index < sites
        invariant
            sites == permutation@.len(),
            index <= sites,
            forall|j: int| 0 <= j < index ==> #[trigger] permutation@[j] < sites,
        decreases sites - index,
    {
        let site: usize = permutation[index];
        if site >= sites {
            assert(permutation@[index as int] == site);
            return Err(QmbedError::InvalidSite { site, sites });
        }
        index = index + 1;
    }
    let mut owner: Vec<usize> = Vec::new();
    while owner.len() < sites
        invariant
            owner.len() <= sites,
            forall|s: int| 0 <= s < owner.len() ==> #[trigger] owner[s] == sites,
        decreases sites - owner.len(),
    {
        owner.push(sites);
    }
    index = 0;
    while index < sites
        invariant
            sites == permutation@.len(),
            index <= sites,
            owner.len() == sites,
            forall|j: int| 0 <= j < sites ==> #[trigger] permutation@[j] < sites,
            forall|s: int|
                0 <= s < sites ==> (#[trigger] owner[s] == sites || (owner[s] < index
                    && permutation@[owner[s] as int] == s)),
            forall|j: int| 0 <= j < index ==> owner[permutation@[j] as int] == j,
        decreases sites - index,
    {
        let site: usize = permutation[index];
        if owner[site] != sites {
            proof {
                let other = owner[site as int] as int;
                assert(permutation@[other] == permutation@[index as int]);
                assert(other != index);
            }
            return Err(
                QmbedError::InvalidOptions("site permutation must be bijective".to_string()),
            );
        }
        owner.set(site, index);
        index = index + 1;
    }
    proof {
        assert forall|i: int, j: int|
            0 <= i < permutation@.len() && 0 <= j < permutation@.len() && i != j implies permutation@[i]
            != permutation@[j] by {
            assert(owner[permutation@[i] as int] == i);
            assert(owner[permutation@[j] as int] == j);
        }
    }
    Ok(())
}

/// The sites of a coupling after a rearrangement.
pub open spec fn rearranged(permutation: Seq<usize>, sites: Seq<usize>) -> Seq<usize> {
    Seq::new(sites.len(), |i: int| permutation[sites[i] as int])
}

/// Moves the sites of a coupling.
pub fn permute_sites(permutation: &[usize], sites: &[usize]) -> (result: Result<Vec<usize>>)
    ensures
        match result {
            Ok(list) => {
                &&& forall|i: int|
                    0 <= i < sites@.len() ==> #[trigger] sites@[i] < permutation@.len()
                &&& list@ == rearranged(permutation@, sites@)
            },
            Err(QmbedError::InvalidSite { site, sites: count }) => {
                &&& count == permutation@.len()
                &&& exists|i: int|
                    0 <= i < sites@.len() && #[trigger] sites@[i] == site && site >= count
                        && forall|j: int| 0 <= j < i ==> #[trigger] sites@[j] < count
            },
            Err(_) => false,
        },
{
    let mut list: Vec<usize> = Vec::new();
    while list.len() < sites.len()
        invariant
            list.len() <= sites@.len(),
            forall|i: int| 0 <= i < list.len() ==> #[trigger] sites@[i] < permutation@.len(),
            forall|i: int|
                0 <= i < list.len() ==> #[trigger] list[i] == permutation@[sites@[i] as int],
        decreases sites@.len() - list.len(),
    {
        let site: usize = sites[list.len()];
        if site >= permutation.len() {
            assert(sites@[list.len() as int] == site);
            return Err(QmbedError::InvalidSite { site, sites: permutation.len() });
        }
        list.push(permutation[site]);
    }
    assert(list@ =~= rearranged(permutation@, sites@));
    Ok(list)
}

/// Rearranging by one permutation and then by another is rearranging by their
/// composition.
pub proof fn rearrangements_compose(first: Seq<usize>, second: Seq<usize>, sites: Seq<usize>)
    requires
        is_permutation(first),
        first.len() == second.len(),
        forall|i: int| 0 <= i < sites.len() ==> #[trigger] sites[i] < first.len(),
    ensures
        rearranged(second, rearranged(first, sites)) == rearranged(
            rearranged(second, first),
            sites,
        ),
{
    assert(rearranged(second, rearranged(first, sites)) =~= rearranged(
        rearranged(second, first),
        sites,
    ));
}

} // verus!
