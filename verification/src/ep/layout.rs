//! What the steps of every plan are, place by place.
//!
//! `n` is the number of ranks throughout, `r` one of them, and `residual_dim` the
//! width of the residual stream in elements.

use crate::ep::plan;
use crate::ep::plan::{Ending, Finish, Plan};
use crate::ep::script;
use crate::ep::script::{Buffers, Step, Task};
use vstd::prelude::*;

verus! {

/// A replicated op is dispatched on every rank in turn, each with its device
/// bound first, and nothing else is done.
pub proof fn replicated_ops_are_dispatched(op: usize, n: int, residual_dim: usize, r: int)
    requires
        0 <= r < n <= usize::MAX,
    ensures
        ({
            let steps = Plan::Replicated.script(op, n, residual_dim);
            let rank = r as usize;
            &&& steps.len() == 2 * n
            &&& steps[2 * r] == (Step::BindThread { rank })
            &&& steps[2 * r + 1] == (Step::Dispatch { op, rank })
        }),
{
    assert((2 * r) / 2 == r && (2 * r) % 2 == 0);
    assert((2 * r + 1) / 2 == r && (2 * r + 1) % 2 == 1);
}

/// A tensor-parallel attention op runs every rank's shard in turn; then every
/// rank's partial is looked for; then the partials are exchanged, all elements of
/// the residual where they are summed; then every rank in turn mixes the result
/// into its residual. Each rank's device is bound first.
pub proof fn attention_shards_are_run_exchanged_and_mixed(
    finish: Finish,
    op: usize,
    n: int,
    residual_dim: usize,
    r: int,
)
    requires
        0 <= r < n <= usize::MAX,
    ensures
        ({
            let steps = (Plan::AttentionTp { ending: Ending::Decided(finish) }).script(
                op,
                n,
                residual_dim,
            );
            let rank = r as usize;
            &&& steps.len() == 5 * n + 1
            &&& steps[2 * r] == (Step::BindThread { rank })
            &&& steps[2 * r + 1] == (Step::RunAttend { op, rank })
            &&& steps[2 * n + r] == (Step::RequireAttentionPartial { rank })
            &&& finish == Finish::AllReduce ==> steps[3 * n] == (Step::AllReduce {
                over: Buffers::Attention,
                count: residual_dim,
            })
            &&& finish != Finish::AllReduce ==> steps[3 * n] == (Step::Barrier {
                before: Buffers::Attention,
            })
            &&& steps[3 * n + 1 + 2 * r] == (Step::BindThread { rank })
            &&& finish == Finish::AllReduce ==> steps[3 * n + 2 + 2 * r] == (Step::FinishAttend {
                rank,
            })
            &&& finish == Finish::PeerHc3 ==> steps[3 * n + 2 + 2 * r] == (
            Step::FinishAttendPeerHc3 { rank })
            &&& finish == Finish::PeerHc4 ==> steps[3 * n + 2 + 2 * r] == (
            Step::FinishAttendPeerHc4 { rank })
        }),
{
    assert((2 * r) / 2 == r && (2 * r) % 2 == 0);
    assert((2 * r + 1) / 2 == r && (2 * r + 1) % 2 == 1);
}

/// A MoE op whose ranks route for themselves first zeroes, rank by rank, every
/// element of the residual's width in the rank's partial, with its device bound
/// and its stream looked for; then every rank in turn runs its own experts, rank
/// 0 alone the shared one too; then the partials are exchanged, all elements
/// where they are summed; then every rank in turn takes the result into its
/// residual.
pub proof fn rank_partials_are_zeroed_run_exchanged_and_added(
    finish: Finish,
    op: usize,
    n: int,
    residual_dim: usize,
    r: int,
)
    requires
        0 <= r < n <= usize::MAX,
    ensures
        ({
            let steps = (Plan::RankPartial { ending: Ending::Decided(finish) }).script(
                op,
                n,
                residual_dim,
            );
            let rank = r as usize;
            &&& steps.len() == 7 * n + 1
            &&& steps[3 * r] == (Step::BindThread { rank })
            &&& steps[3 * r + 1] == (Step::RequireStream { rank })
            &&& steps[3 * r + 2] == (Step::ZeroPartial { rank, count: residual_dim })
            &&& steps[3 * n + 2 * r] == (Step::BindThread { rank })
            &&& steps[3 * n + 2 * r + 1] == (Step::RunMoe { op, rank, skip_shared: r > 0 })
            &&& finish == Finish::AllReduce ==> steps[5 * n] == (Step::AllReduce {
                over: Buffers::Routed,
                count: residual_dim,
            })
            &&& finish != Finish::AllReduce ==> steps[5 * n] == (Step::Barrier {
                before: Buffers::Routed,
            })
            &&& steps[5 * n + 1 + 2 * r] == (Step::BindThread { rank })
            &&& finish == Finish::AllReduce ==> steps[5 * n + 2 + 2 * r] == (
            Step::AddIntoResidual { rank })
            &&& finish == Finish::PeerHc3 ==> steps[5 * n + 2 + 2 * r] == (
            Step::FinishMoePeerHc3 { rank })
            &&& finish == Finish::PeerHc4 ==> steps[5 * n + 2 + 2 * r] == (
            Step::FinishMoePeerHc4 { rank })
        }),
{
    assert((2 * r) / 2 == r && (2 * r) % 2 == 0);
    assert((2 * r + 1) / 2 == r && (2 * r + 1) % 2 == 1);
    assert((3 * r) / 3 == r && (3 * r) % 3 == 0);
    assert((3 * r + 1) / 3 == r && (3 * r + 1) % 3 == 1);
    assert((3 * r + 2) / 3 == r && (3 * r + 2) % 3 == 2);
}

/// The root's part of a root-routed MoE op.
proof fn lemma_root_part(op: usize, n: int, residual_dim: usize, r: int)
    requires
        0 <= r < n <= usize::MAX,
    ensures
        ({
            let steps = plan::root_part(op, n, residual_dim);
            let rank = r as usize;
            &&& steps.len() == 5 * n + 1
            &&& steps[0] == (Step::PreflightRoot { op })
            &&& r > 0 ==> steps[r] == (Step::PreflightContrib { op, rank })
            &&& steps[n + 3 * r] == (Step::BindThread { rank })
            &&& steps[n + 3 * r + 1] == (Step::RequireStream { rank })
            &&& steps[n + 3 * r + 2] == (Step::ZeroPartial { rank, count: residual_dim })
            &&& steps[4 * n] == (Step::BindThread { rank: 0 })
            &&& steps[4 * n + 1] == (Step::RunMoeRoot { op })
            &&& r > 0 ==> steps[4 * n + 1 + r] == (Step::RequireRouteView { rank })
        }),
{
    let valid = plan::preflight(op, n);
    let zero = script::zero_partials(n, residual_dim);
    let root = seq![Step::BindThread { rank: 0 }, Step::RunMoeRoot { op }];
    let views = Task::RequireRouteView.by_ranks(op, 1, n);
    let steps = plan::root_part(op, n, residual_dim);
    assert((3 * r) / 3 == r && (3 * r) % 3 == 0);
    assert((3 * r + 1) / 3 == r && (3 * r + 1) % 3 == 1);
    assert((3 * r + 2) / 3 == r && (3 * r + 2) % 3 == 2);
    assert(valid.len() == n && zero.len() == 3 * n && views.len() == n - 1);
    assert(valid[0] == steps[0] && valid[r] == steps[r]);
    assert(steps[n + 3 * r] == zero[3 * r]);
    assert(steps[n + 3 * r + 1] == zero[3 * r + 1]);
    assert(steps[n + 3 * r + 2] == zero[3 * r + 2]);
    assert(steps[4 * n] == root[0]);
    assert(steps[4 * n + 1] == root[1]);
    assert(r > 0 ==> steps[4 * n + 1 + r] == views[r - 1]);
}

/// What follows the root's part.
proof fn lemma_contributions(op: usize, n: int, residual_dim: usize, k: usize, r: int)
    requires
        0 <= r < n <= usize::MAX,
    ensures
        ({
            let steps = plan::contributions(op, n, residual_dim, k);
            let rank = r as usize;
            &&& steps.len() == 4 * n
            &&& steps[0] == (Step::BroadcastRoute { k })
            &&& r > 0 ==> steps[2 * r - 1] == (Step::BindThread { rank })
            &&& r > 0 ==> steps[2 * r] == (Step::RunMoeContrib { op, rank })
            &&& steps[2 * n - 1] == (Step::AllReduce {
                over: Buffers::Routed,
                count: residual_dim,
            })
            &&& steps[2 * n + 2 * r] == (Step::BindThread { rank })
            &&& steps[2 * n + 1 + 2 * r] == (Step::AddIntoResidual { rank })
        }),
{
    let work = Task::RunMoeContrib.by_bound_ranks(op, 1, n);
    let add = Task::AddIntoResidual.by_bound_ranks(op, 0, n);
    let steps = plan::contributions(op, n, residual_dim, k);
    assert((2 * r) / 2 == r && (2 * r) % 2 == 0);
    assert((2 * r + 1) / 2 == r && (2 * r + 1) % 2 == 1);
    assert((2 * (r - 1)) / 2 == r - 1 && (2 * (r - 1)) % 2 == 0);
    assert((2 * (r - 1) + 1) / 2 == r - 1 && (2 * (r - 1) + 1) % 2 == 1);
    assert(work.len() == 2 * n - 2 && add.len() == 2 * n);
    assert(r > 0 ==> steps[2 * r - 1] == work[2 * (r - 1)]);
    assert(r > 0 ==> steps[2 * r] == work[2 * (r - 1) + 1]);
    assert(steps[2 * n + 2 * r] == add[2 * r]);
    assert(steps[2 * n + 1 + 2 * r] == add[2 * r + 1]);
}

/// A root-routed MoE op first validates the root, then every other rank; then it
/// zeroes, rank by rank, every element of the residual's width in the rank's
/// partial; then the root runs; then every other rank's route view is looked for;
/// then the root's route of `k` experts is copied; then every other rank in turn
/// runs its own experts; then all elements of the partials are summed; then every
/// rank in turn adds the sum into its residual.
pub proof fn root_routed_ops_are_validated_zeroed_run_summed_and_added(
    k: usize,
    op: usize,
    n: int,
    residual_dim: usize,
    r: int,
)
    requires
        0 <= r < n <= usize::MAX,
    ensures
        ({
            let steps = (Plan::RootRouted { k: Some(k) }).script(op, n, residual_dim);
            let rank = r as usize;
            &&& steps.len() == 9 * n + 1
            &&& steps[0] == (Step::PreflightRoot { op })
            &&& r > 0 ==> steps[r] == (Step::PreflightContrib { op, rank })
            &&& steps[n + 3 * r] == (Step::BindThread { rank })
            &&& steps[n + 3 * r + 1] == (Step::RequireStream { rank })
            &&& steps[n + 3 * r + 2] == (Step::ZeroPartial { rank, count: residual_dim })
            &&& steps[4 * n] == (Step::BindThread { rank: 0 })
            &&& steps[4 * n + 1] == (Step::RunMoeRoot { op })
            &&& r > 0 ==> steps[4 * n + 1 + r] == (Step::RequireRouteView { rank })
            &&& steps[5 * n + 1] == (Step::BroadcastRoute { k })
            &&& r > 0 ==> steps[5 * n + 2 * r] == (Step::BindThread { rank })
            &&& r > 0 ==> steps[5 * n + 2 * r + 1] == (Step::RunMoeContrib { op, rank })
            &&& steps[7 * n] == (Step::AllReduce { over: Buffers::Routed, count: residual_dim })
            &&& steps[7 * n + 1 + 2 * r] == (Step::BindThread { rank })
            &&& steps[7 * n + 2 + 2 * r] == (Step::AddIntoResidual { rank })
        }),
{
    let first = plan::root_part(op, n, residual_dim);
    let then = plan::contributions(op, n, residual_dim, k);
    let steps = (Plan::RootRouted { k: Some(k) }).script(op, n, residual_dim);
    lemma_root_part(op, n, residual_dim, r);
    lemma_contributions(op, n, residual_dim, k, r);
    assert(forall|i: int| 0 <= i < 5 * n + 1 ==> #[trigger] steps[i] == first[i]);
    assert(steps[5 * n + 1] == then[0]);
    assert(r > 0 ==> steps[5 * n + 2 * r] == then[2 * r - 1]);
    assert(r > 0 ==> steps[5 * n + 2 * r + 1] == then[2 * r]);
    assert(steps[7 * n] == then[2 * n - 1]);
    assert(steps[7 * n + 1 + 2 * r] == then[2 * n + 2 * r]);
    assert(steps[7 * n + 2 + 2 * r] == then[2 * n + 1 + 2 * r]);
}

/// What is done before all is decided is the beginning of what is done in the
/// end, whatever is decided: the ranks' shards, their experts into their zeroed
/// partials, or the root's part. While it is open how to run an op at all,
/// nothing is done.
pub proof fn undecided_plans_begin_as_decided_ones(
    finish: Finish,
    k: usize,
    pending: Plan,
    op: usize,
    n: int,
    residual_dim: usize,
)
    requires
        0 < n <= usize::MAX,
    ensures
        ({
            let ended = Ending::Decided(finish);
            let attention = (Plan::AttentionTp { ending: ended }).script(op, n, residual_dim);
            let moe = (Plan::RankPartial { ending: ended }).script(op, n, residual_dim);
            let rooted = (Plan::RootRouted { k: Some(k) }).script(op, n, residual_dim);
            &&& forall|open: Ending|
                !(open is Decided) ==> #[trigger] (Plan::AttentionTp { ending: open }).script(
                    op,
                    n,
                    residual_dim,
                ) == attention.take(2 * n)
            &&& forall|open: Ending|
                !(open is Decided) ==> #[trigger] (Plan::RankPartial { ending: open }).script(
                    op,
                    n,
                    residual_dim,
                ) == moe.take(5 * n)
            &&& (Plan::RootRouted { k: None }).script(op, n, residual_dim) == rooted.take(5 * n + 1)
            &&& pending is Ended || pending is AttendPending || pending is MoePending
                || pending is PartialSizesPending || pending is RouteViewPending
                ==> pending.script(op, n, residual_dim).len() == 0
        }),
{
    let ended = Ending::Decided(finish);
    let attention = (Plan::AttentionTp { ending: ended }).script(op, n, residual_dim);
    let moe = (Plan::RankPartial { ending: ended }).script(op, n, residual_dim);
    let rooted = (Plan::RootRouted { k: Some(k) }).script(op, n, residual_dim);
    assert forall|open: Ending| !(open is Decided) implies #[trigger] (Plan::AttentionTp {
        ending: open,
    }).script(op, n, residual_dim) == attention.take(2 * n) by {
        assert((Plan::AttentionTp { ending: open }).script(op, n, residual_dim) =~= attention.take(
            2 * n,
        ));
    }
    assert forall|open: Ending| !(open is Decided) implies #[trigger] (Plan::RankPartial {
        ending: open,
    }).script(op, n, residual_dim) == moe.take(5 * n) by {
        assert((Plan::RankPartial { ending: open }).script(op, n, residual_dim) =~= moe.take(
            5 * n,
        ));
    }
    assert((Plan::RootRouted { k: None }).script(op, n, residual_dim) =~= rooted.take(5 * n + 1));
}

/// Every exchange among the steps is over these buffers, and sums `count`
/// elements; what is zeroed is a rank's routed partial, over as many.
spec fn covers(steps: Seq<Step>, over: Buffers, n: int, count: usize) -> bool {
    forall|i: int|
        0 <= i < steps.len() ==> {
            let step = #[trigger] steps[i];
            &&& step is AllReduce ==> step == (Step::AllReduce { over, count })
            &&& step is Barrier ==> step == (Step::Barrier { before: over })
            &&& step matches Step::ZeroPartial { rank, count: zeroed } ==> over == Buffers::Routed
                && rank < n && zeroed == count
        }
}

proof fn lemma_covers_concat(a: Seq<Step>, b: Seq<Step>, over: Buffers, n: int, count: usize)
    requires
        covers(a, over, n, count),
        covers(b, over, n, count),
    ensures
        covers(a + b, over, n, count),
{
    assert forall|i: int| 0 <= i < (a + b).len() implies {
        let step = #[trigger] (a + b)[i];
        &&& step is AllReduce ==> step == (Step::AllReduce { over, count })
        &&& step is Barrier ==> step == (Step::Barrier { before: over })
        &&& step matches Step::ZeroPartial { rank, count: zeroed } ==> over == Buffers::Routed
            && rank < n && zeroed == count
    } by {
        if i < a.len() {
            assert((a + b)[i] == a[i]);
        } else {
            assert((a + b)[i] == b[i - a.len()]);
        }
    }
}

proof fn lemma_root_routed_covers(op: usize, n: int, residual_dim: usize, k: usize)
    requires
        0 < n <= usize::MAX,
    ensures
        covers(plan::root_part(op, n, residual_dim), Buffers::Routed, n, residual_dim),
        covers(plan::contributions(op, n, residual_dim, k), Buffers::Routed, n, residual_dim),
{
    let over = Buffers::Routed;
    let zero = script::zero_partials(n, residual_dim);
    let root = seq![Step::BindThread { rank: 0 }, Step::RunMoeRoot { op }];
    let views = Task::RequireRouteView.by_ranks(op, 1, n);
    let valid = plan::preflight(op, n);
    lemma_covers_concat(valid, zero, over, n, residual_dim);
    lemma_covers_concat(valid + zero, root, over, n, residual_dim);
    lemma_covers_concat(valid + zero + root, views, over, n, residual_dim);
    let route = seq![Step::BroadcastRoute { k }];
    let work = Task::RunMoeContrib.by_bound_ranks(op, 1, n);
    let sum = seq![Step::AllReduce { over, count: residual_dim }];
    let add = Task::AddIntoResidual.by_bound_ranks(op, 0, n);
    lemma_covers_concat(route, work, over, n, residual_dim);
    lemma_covers_concat(route + work, sum, over, n, residual_dim);
    lemma_covers_concat(route + work + sum, add, over, n, residual_dim);
}

proof fn lemma_finishes_cover(finish: Finish, op: usize, n: int, residual_dim: usize)
    ensures
        covers(
            plan::attend_finish(finish, op, n, residual_dim),
            Buffers::Attention,
            n,
            residual_dim,
        ),
        covers(plan::moe_finish(finish, op, n, residual_dim), Buffers::Routed, n, residual_dim),
{
}

proof fn lemma_plans_cover(decided: Plan, op: usize, n: int, residual_dim: usize)
    requires
        0 < n <= usize::MAX,
    ensures
        decided is AttentionTp ==> covers(
            decided.script(op, n, residual_dim),
            Buffers::Attention,
            n,
            residual_dim,
        ),
        decided is RankPartial || decided is RootRouted ==> covers(
            decided.script(op, n, residual_dim),
            Buffers::Routed,
            n,
            residual_dim,
        ),
{
    match decided {
        Plan::AttentionTp { ending } => {
            let over = Buffers::Attention;
            let shards = plan::attend_shards(op, n);
            assert(covers(shards, over, n, residual_dim));
            if let Ending::Decided(f) = ending {
                let last = plan::attend_finish(f, op, n, residual_dim);
                lemma_finishes_cover(f, op, n, residual_dim);
                lemma_covers_concat(shards, last, over, n, residual_dim);
            }
        },
        Plan::RankPartial { ending } => {
            let over = Buffers::Routed;
            let zero = script::zero_partials(n, residual_dim);
            let experts = Task::RunMoe.by_bound_ranks(op, 0, n);
            lemma_covers_concat(zero, experts, over, n, residual_dim);
            if let Ending::Decided(f) = ending {
                let last = plan::moe_finish(f, op, n, residual_dim);
                lemma_finishes_cover(f, op, n, residual_dim);
                lemma_covers_concat(zero + experts, last, over, n, residual_dim);
            }
        },
        Plan::RootRouted { k } => {
            let top = match k {
                Some(k) => k,
                None => 0,
            };
            lemma_root_routed_covers(op, n, residual_dim, top);
            lemma_covers_concat(
                plan::root_part(op, n, residual_dim),
                plan::contributions(op, n, residual_dim, top),
                Buffers::Routed,
                n,
                residual_dim,
            );
        },
        _ => {},
    }
}

/// Whatever the plan, a sum takes in every element of the residual's width, of
/// the attention partials on an attention op and of the routed ones on a MoE op,
/// and so does an exchange between peers. Other ops exchange nothing.
pub proof fn exchanges_cover_the_residual(
    decided: Plan,
    op: usize,
    n: int,
    residual_dim: usize,
    i: int,
)
    requires
        0 < n <= usize::MAX,
        0 <= i < decided.script(op, n, residual_dim).len(),
    ensures
        ({
            let step = decided.script(op, n, residual_dim)[i];
            &&& step is AllReduce ==> step->AllReduce_count == residual_dim
            &&& step is AllReduce || step is Barrier ==> {
                let over = if step is AllReduce {
                    step->over
                } else {
                    step->before
                };
                &&& over == Buffers::Attention ==> decided is AttentionTp
                &&& over == Buffers::Routed ==> decided is RankPartial || decided is RootRouted
            }
        }),
{
    lemma_plans_cover(decided, op, n, residual_dim);
}

/// Whatever the plan, a partial is zeroed over every element of the residual's
/// width, so that all that is summed and added was zeroed first.
pub proof fn zeroing_covers_the_residual(
    decided: Plan,
    op: usize,
    n: int,
    residual_dim: usize,
    i: int,
)
    requires
        0 < n <= usize::MAX,
        0 <= i < decided.script(op, n, residual_dim).len(),
    ensures
        ({
            let step = decided.script(op, n, residual_dim)[i];
            step is ZeroPartial ==> {
                &&& step->ZeroPartial_count == residual_dim
                &&& step->ZeroPartial_rank < n
                &&& decided is RankPartial || decided is RootRouted
            }
        }),
{
    lemma_plans_cover(decided, op, n, residual_dim);
}

} // verus!
