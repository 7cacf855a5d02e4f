//! Whether the ranks agree on a root-routed combine.
//!
//! Everything here is decided before a partial is touched.

use crate::ep::error::EpError;
use vstd::prelude::*;

verus! {

/// Most ranks that the root-routed combine stages. Rank sets are 64-bit masks,
/// so a larger mesh is not admitted in the first place.
pub const MAX_EP_STACK_RANKS: usize = 64;

/// Bytes of one element of a partial.
pub const ELEMENT_BYTES: usize = 4;

/// What a rank's binding reports of the route it is bound to.
#[derive(Debug, Clone, Copy, PartialEq, Eq, Structural)]
pub struct RouteView {
    /// Identity of the execution contract, where there is one.
    pub contract_id: Option<u64>,
    /// Whether the execution contract is root-routed, where it is at hand.
    pub root_routed: Option<bool>,
    /// The rank that the expert shard is for.
    pub local_rank: usize,
    /// The number of ranks that the expert shard is for.
    pub rank_count: usize,
    pub layer: usize,
    /// Hidden width.
    pub hidden: usize,
    /// Experts per token.
    pub k: usize,
    /// Experts in all.
    pub n_exp: usize,
}

impl RouteView {
    /// The same contract, layer and dimensions.
    pub open spec fn same_plan(self, root: RouteView) -> bool {
        &&& self.contract_id == root.contract_id
        &&& self.layer == root.layer
        &&& self.hidden == root.hidden
        &&& self.k == root.k
        &&& self.n_exp == root.n_exp
    }
}

/// The bytes of `count` elements of a partial, where they fit a machine word.
pub open spec fn bytes_of(count: int) -> Option<usize> {
    if count * ELEMENT_BYTES <= usize::MAX {
        Some((count * ELEMENT_BYTES) as usize)
    } else {
        None
    }
}

/// What a mesh of `ranks` ranks and a residual of `residual_dim` elements are
/// refused for, whatever the ranks report.
pub open spec fn size_error(ranks: int, residual_dim: int) -> Option<EpError> {
    if ranks > MAX_EP_STACK_RANKS {
        Some(EpError::TooManyRanks { ranks: ranks as usize })
    } else if bytes_of(residual_dim) is None {
        Some(EpError::PartialBytesOverflow)
    } else {
        None
    }
}

/// The lowest rank at or behind `from` whose partial holds fewer than `needed`
/// bytes.
pub open spec fn partial_error(partial_bytes: Seq<usize>, needed: usize, from: int) -> Option<
    EpError,
>
    decreases partial_bytes.len() - from,
{
    if from >= partial_bytes.len() {
        None
    } else if partial_bytes[from] < needed {
        Some(
            EpError::PartialTooSmall { rank: from as usize, bytes: partial_bytes[from], needed },
        )
    } else {
        partial_error(partial_bytes, needed, from + 1)
    }
}

/// What the root's view is refused for.
pub open spec fn root_error(view: Option<RouteView>, ranks: usize, residual_dim: usize) -> Option<
    EpError,
> {
    match view {
        None => Some(EpError::RouteViewMissing { rank: 0 }),
        Some(v) => if v.contract_id is None {
            Some(EpError::RootHasNoContract)
        } else if v.root_routed == Some(false) {
            Some(EpError::RootContractNotRootRouted)
        } else if v.local_rank != 0 {
            Some(EpError::LocalRank { rank: 0, local_rank: v.local_rank })
        } else if v.rank_count != ranks {
            Some(EpError::RootRankCount { rank_count: v.rank_count, ranks })
        } else if v.k == 0 {
            Some(EpError::ZeroTopK)
        } else if v.hidden != residual_dim {
            Some(EpError::RootHidden { hidden: v.hidden, residual_dim })
        } else {
            None
        },
    }
}

/// What the view of a rank other than the root is refused for.
pub open spec fn rank_error(view: Option<RouteView>, root: RouteView, rank: usize, ranks: usize) -> Option<
    EpError,
> {
    match view {
        None => Some(EpError::RouteViewMissing { rank }),
        Some(v) => if v.contract_id is None {
            Some(EpError::RankHasNoContract { rank })
        } else if !v.same_plan(root) {
            Some(EpError::RankDisagrees { rank })
        } else if v.local_rank != rank {
            Some(EpError::LocalRank { rank, local_rank: v.local_rank })
        } else if v.rank_count != ranks {
            Some(EpError::RankRankCount { rank, rank_count: v.rank_count, ranks })
        } else {
            None
        },
    }
}

/// What the lowest rank at or behind `from` is refused for.
pub open spec fn ranks_error(views: Seq<Option<RouteView>>, root: RouteView, from: int) -> Option<
    EpError,
>
    decreases views.len() - from,
{
    if from >= views.len() {
        None
    } else {
        match rank_error(views[from], root, from as usize, views.len() as usize) {
            Some(e) => Some(e),
            None => ranks_error(views, root, from + 1),
        }
    }
}

/// What the partials of a residual of `residual_dim` elements are refused for.
pub open spec fn sizes_error(partial_bytes: Seq<usize>, residual_dim: usize) -> Option<EpError> {
    partial_error(partial_bytes, (residual_dim * ELEMENT_BYTES) as usize, 0)
}

/// What the views are refused for: first the root's, then those of the other
/// ranks in order.
pub open spec fn views_error(views: Seq<Option<RouteView>>, residual_dim: usize) -> Option<
    EpError,
> {
    match root_error(views[0], views.len() as usize, residual_dim) {
        Some(e) => Some(e),
        None => ranks_error(views, views[0]->0, 1),
    }
}

/// What the ranks are refused for: first the size of the partials, then the
/// root, then the other ranks in order.
pub open spec fn agreement_error(
    partial_bytes: Seq<usize>,
    views: Seq<Option<RouteView>>,
    residual_dim: usize,
) -> Option<EpError> {
    match sizes_error(partial_bytes, residual_dim) {
        Some(e) => Some(e),
        None => views_error(views, residual_dim),
    }
}

/// The bytes of `count` elements of a partial, where they fit a machine word.
pub fn partial_bytes(count: usize) -> (bytes: Option<usize>)
    ensures
        bytes == bytes_of(count as int),
{
    count.checked_mul(ELEMENT_BYTES)
}

/// Checks the size of the mesh and of the partials; returns the bytes that a
/// partial needs.
pub fn check_size(ranks: usize, residual_dim: usize) -> (needed: Result<usize, EpError>)
    ensures
        needed == match size_error(ranks as int, residual_dim as int) {
            Some(e) => Err::<usize, EpError>(e),
            None => Ok((residual_dim * ELEMENT_BYTES) as usize),
        },
{
    if ranks > MAX_EP_STACK_RANKS {
        return Err(EpError::TooManyRanks { ranks });
    }
    match partial_bytes(residual_dim) {
        Some(needed) => Ok(needed),
        None => Err(EpError::PartialBytesOverflow),
    }
}

/// Checks that every partial holds the residual.
pub fn check_partials(partial_bytes: &[usize], residual_dim: usize) -> (large: Result<(), EpError>)
    requires
        residual_dim * ELEMENT_BYTES <= usize::MAX,
    ensures
        large == match sizes_error(partial_bytes@, residual_dim) {
            Some(e) => Err::<(), EpError>(e),
            None => Ok(()),
        },
{
    let needed: usize = residual_dim * ELEMENT_BYTES;
    let mut r: usize = 0;
    while r < partial_bytes.len()
        invariant
            r <= partial_bytes.len(),
            needed == residual_dim * ELEMENT_BYTES,
            sizes_error(partial_bytes@, residual_dim) == partial_error(
                partial_bytes@,
                needed,
                r as int,
            ),
        decreases partial_bytes.len() - r,
    {
        if partial_bytes[r] < needed {
            return Err(EpError::PartialTooSmall { rank: r, bytes: partial_bytes[r], needed });
        }
        r = r + 1;
    }
    Ok(())
}

/// Checks the root's view, and returns it.
pub fn check_root(view: &Option<RouteView>, ranks: usize, residual_dim: usize) -> (root: Result<
    RouteView,
    EpError,
>)
    ensures
        root == match root_error(*view, ranks, residual_dim) {
            Some(e) => Err::<RouteView, EpError>(e),
            None => Ok(view->0),
        },
{
    let v: RouteView = match view {
        None => {
            return Err(EpError::RouteViewMissing { rank: 0 });
        },
        Some(v) => *v,
    };
    if v.contract_id.is_none() {
        return Err(EpError::RootHasNoContract);
    }
    if let Some(root_routed) = v.root_routed {
        if !root_routed {
            return Err(EpError::RootContractNotRootRouted);
        }
    }
    if v.local_rank != 0 {
        return Err(EpError::LocalRank { rank: 0, local_rank: v.local_rank });
    }
    if v.rank_count != ranks {
        return Err(EpError::RootRankCount { rank_count: v.rank_count, ranks });
    }
    if v.k == 0 {
        return Err(EpError::ZeroTopK);
    }
    if v.hidden != residual_dim {
        return Err(EpError::RootHidden { hidden: v.hidden, residual_dim });
    }
    Ok(v)
}

/// Checks the view of a rank other than the root.
pub fn check_rank(view: &Option<RouteView>, root: &RouteView, rank: usize, ranks: usize) -> (agreed:
    Result<(), EpError>)
    ensures
        agreed == match rank_error(*view, *root, rank, ranks) {
            Some(e) => Err::<(), EpError>(e),
            None => Ok(()),
        },
{
    let v: RouteView = match view {
        None => {
            return Err(EpError::RouteViewMissing { rank });
        },
        Some(v) => *v,
    };
    let same_contract: bool = match (v.contract_id, root.contract_id) {
        (None, _) => {
            return Err(EpError::RankHasNoContract { rank });
        },
        (Some(own), Some(other)) => own == other,
        (Some(_), None) => false,
    };
    if !same_contract || v.layer != root.layer || v.hidden != root.hidden || v.k != root.k
        || v.n_exp != root.n_exp {
        return Err(EpError::RankDisagrees { rank });
    }
    if v.local_rank != rank {
        return Err(EpError::LocalRank { rank, local_rank: v.local_rank });
    }
    if v.rank_count != ranks {
        return Err(EpError::RankRankCount { rank, rank_count: v.rank_count, ranks });
    }
    Ok(())
}

/// An element takes four bytes, and at most 64 ranks are admitted: a count has
/// bytes exactly where four times it fits a machine word, and a mesh is refused
/// first for its ranks and then for its bytes.
pub proof fn sizes_are_four_bytes_an_element(ranks: usize, count: usize)
    ensures
        count * 4 <= usize::MAX ==> bytes_of(count as int) == Some((count * 4) as usize),
        count * 4 > usize::MAX ==> bytes_of(count as int) is None,
        ranks > 64 ==> size_error(ranks as int, count as int) == Some(
            EpError::TooManyRanks { ranks },
        ),
        ranks <= 64 && count * 4 > usize::MAX ==> size_error(ranks as int, count as int) == Some(
            EpError::PartialBytesOverflow,
        ),
        ranks <= 64 && count * 4 <= usize::MAX ==> size_error(ranks as int, count as int) is None,
{
}

/// The partials are refused for the lowest rank whose partial holds fewer than
/// four bytes for every element, and for none where all hold as many.
pub proof fn smallest_rank_at_fault_is_named(partial_bytes: Seq<usize>, count: usize)
    requires
        count * 4 <= usize::MAX,
        partial_bytes.len() <= usize::MAX,
    ensures
        sizes_error(partial_bytes, count) is None <==> forall|r: int|
            0 <= r < partial_bytes.len() ==> #[trigger] partial_bytes[r] >= count * 4,
        sizes_error(partial_bytes, count) matches Some(e) ==> exists|r: int|
            {
                &&& 0 <= r < partial_bytes.len()
                &&& (#[trigger] partial_bytes[r]) < count * 4
                &&& forall|q: int| 0 <= q < r ==> #[trigger] partial_bytes[q] >= count * 4
                &&& e == (EpError::PartialTooSmall {
                    rank: r as usize,
                    bytes: partial_bytes[r],
                    needed: (count * 4) as usize,
                })
            },
{
    let needed = (count * 4) as usize;
    lemma_partial_error(partial_bytes, needed, 0);
    lemma_first_partial(partial_bytes, needed, 0);
}

proof fn lemma_first_partial(partial_bytes: Seq<usize>, needed: usize, from: int)
    requires
        0 <= from <= partial_bytes.len(),
    ensures
        partial_error(partial_bytes, needed, from) matches Some(e) ==> exists|r: int|
            {
                &&& from <= r < partial_bytes.len()
                &&& (#[trigger] partial_bytes[r]) < needed
                &&& forall|q: int| from <= q < r ==> #[trigger] partial_bytes[q] >= needed
                &&& e == (EpError::PartialTooSmall {
                    rank: r as usize,
                    bytes: partial_bytes[r],
                    needed,
                })
            },
    decreases partial_bytes.len() - from,
{
    if from < partial_bytes.len() {
        if partial_bytes[from] >= needed {
            lemma_first_partial(partial_bytes, needed, from + 1);
        }
    }
}

/// A root's view is refused for the first fault that it has, and for none where
/// it has none.
pub proof fn root_views_are_refused_for_their_first_fault(
    v: RouteView,
    ranks: usize,
    residual_dim: usize,
)
    ensures
        root_error(None, ranks, residual_dim) == Some(EpError::RouteViewMissing { rank: 0 }),
        ({
            let error = root_error(Some(v), ranks, residual_dim);
            &&& error == Some(EpError::RootHasNoContract) <==> v.contract_id is None
            &&& error == Some(EpError::RootContractNotRootRouted) <==> v.contract_id is Some
                && v.root_routed == Some(false)
            &&& error == Some(EpError::LocalRank { rank: 0, local_rank: v.local_rank })
                <==> v.contract_id is Some && v.root_routed != Some(false) && v.local_rank != 0
            &&& error == Some(EpError::RootRankCount { rank_count: v.rank_count, ranks })
                <==> v.contract_id is Some && v.root_routed != Some(false) && v.local_rank == 0
                && v.rank_count != ranks
            &&& error == Some(EpError::ZeroTopK) <==> v.contract_id is Some && v.root_routed
                != Some(false) && v.local_rank == 0 && v.rank_count == ranks && v.k == 0
            &&& error == Some(EpError::RootHidden { hidden: v.hidden, residual_dim })
                <==> v.contract_id is Some && v.root_routed != Some(false) && v.local_rank == 0
                && v.rank_count == ranks && v.k > 0 && v.hidden != residual_dim
            &&& error is None <==> v.contract_id is Some && v.root_routed != Some(false)
                && v.local_rank == 0 && v.rank_count == ranks && v.k > 0 && v.hidden
                == residual_dim
        }),
{
}

/// The view of another rank is refused for the first fault that it has, and for
/// none where it has none.
pub proof fn rank_views_are_refused_for_their_first_fault(
    v: RouteView,
    root: RouteView,
    rank: usize,
    ranks: usize,
)
    ensures
        rank_error(None, root, rank, ranks) == Some(EpError::RouteViewMissing { rank }),
        ({
            let error = rank_error(Some(v), root, rank, ranks);
            let same = v.contract_id == root.contract_id && v.layer == root.layer && v.hidden
                == root.hidden && v.k == root.k && v.n_exp == root.n_exp;
            &&& error == Some(EpError::RankHasNoContract { rank }) <==> v.contract_id is None
            &&& error == Some(EpError::RankDisagrees { rank }) <==> v.contract_id is Some && !same
            &&& error == Some(EpError::LocalRank { rank, local_rank: v.local_rank })
                <==> v.contract_id is Some && same && v.local_rank != rank
            &&& error == Some(EpError::RankRankCount { rank, rank_count: v.rank_count, ranks })
                <==> v.contract_id is Some && same && v.local_rank == rank && v.rank_count != ranks
            &&& error is None <==> v.contract_id is Some && same && v.local_rank == rank
                && v.rank_count == ranks
        }),
{
}

/// The ranks agree exactly where every partial holds the residual, the root is
/// bound as rank 0 of this mesh to a contract of its own that is not known to be
/// for another combine, routes to some expert over the residual's width, and
/// every other rank is bound to its place in this mesh under the root's plan.
pub open spec fn agreed(
    partial_bytes: Seq<usize>,
    views: Seq<Option<RouteView>>,
    residual_dim: usize,
) -> bool {
    &&& forall|r: int|
        0 <= r < partial_bytes.len() ==> #[trigger] partial_bytes[r] >= residual_dim * ELEMENT_BYTES
    &&& forall|r: int| #![trigger views[r]] 0 <= r < views.len() ==> {
        &&& views[r] is Some
        &&& views[r]->0.contract_id is Some
        &&& views[r]->0.same_plan(views[0]->0)
        &&& views[r]->0.local_rank == r
        &&& views[r]->0.rank_count == views.len()
    }
    &&& views[0]->0.root_routed != Some(false)
    &&& views[0]->0.k > 0
    &&& views[0]->0.hidden == residual_dim
}

/// No partial at or behind `from` is too small exactly where none is reported.
proof fn lemma_partial_error(partial_bytes: Seq<usize>, needed: usize, from: int)
    requires
        0 <= from <= partial_bytes.len(),
    ensures
        partial_error(partial_bytes, needed, from) is None <==> (forall|r: int|
            from <= r < partial_bytes.len() ==> #[trigger] partial_bytes[r] >= needed),
    decreases partial_bytes.len() - from,
{
    if from < partial_bytes.len() {
        lemma_partial_error(partial_bytes, needed, from + 1);
    }
}

/// No rank at or behind `from` is refused exactly where none is reported.
proof fn lemma_ranks_error(views: Seq<Option<RouteView>>, root: RouteView, from: int)
    requires
        0 <= from <= views.len(),
    ensures
        ranks_error(views, root, from) is None <==> (forall|r: int|
            from <= r < views.len() ==> rank_error(
                #[trigger] views[r],
                root,
                r as usize,
                views.len() as usize,
            ) is None),
    decreases views.len() - from,
{
    if from < views.len() {
        lemma_ranks_error(views, root, from + 1);
    }
}

/// Exactly the ranks that agree are not refused.
pub proof fn check_accepts_agreement(
    partial_bytes: Seq<usize>,
    views: Seq<Option<RouteView>>,
    residual_dim: usize,
)
    requires
        0 < views.len() <= usize::MAX,
        partial_bytes.len() == views.len(),
        residual_dim * ELEMENT_BYTES <= usize::MAX,
    ensures
        agreement_error(partial_bytes, views, residual_dim) is None <==> agreed(
            partial_bytes,
            views,
            residual_dim,
        ),
{
    let needed = (residual_dim * ELEMENT_BYTES) as usize;
    lemma_partial_error(partial_bytes, needed, 0);
    if root_error(views[0], views.len() as usize, residual_dim) is None {
        let root = views[0]->0;
        lemma_ranks_error(views, root, 1);
        if agreement_error(partial_bytes, views, residual_dim) is None {
            assert forall|r: int| #![trigger views[r]] 0 <= r < views.len() implies {
                &&& views[r] is Some
                &&& views[r]->0.contract_id is Some
                &&& views[r]->0.same_plan(views[0]->0)
                &&& views[r]->0.local_rank == r
                &&& views[r]->0.rank_count == views.len()
            } by {
                if r > 0 {
                    assert(rank_error(views[r], root, r as usize, views.len() as usize) is None);
                }
            }
        }
        if agreed(partial_bytes, views, residual_dim) {
            assert forall|r: int| 1 <= r < views.len() implies rank_error(
                #[trigger] views[r],
                root,
                r as usize,
                views.len() as usize,
            ) is None by {
                assert(views[r] is Some);
            }
        }
    } else if agreed(partial_bytes, views, residual_dim) {
        assert(views[0] is Some);
    }
}

} // verus!
