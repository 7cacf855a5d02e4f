//! What holds of every plan and of every run.

use crate::ep::error::EpError;
use crate::ep::plan;
use crate::ep::plan::{CombineMode, Ending, Finish, OpKind, Plan, Question};
use crate::ep::route;
use crate::ep::route::RouteView;
use crate::ep::run;
use crate::ep::run::{Outcome, Request, RunState, Stop};
use crate::ep::script;
use crate::ep::script::{Buffers, Step, Task};
use crate::ep::trace;
use crate::ep::trace::Event;
use vstd::prelude::*;

verus! {

/// Every step that puts work on a rank's device comes right behind the step that
/// binds that device, or behind the look for its stream that follows.
pub open spec fn work_is_bound(steps: Seq<Step>) -> bool {
    forall|i: int|
        #![trigger steps[i].works_on()]
        0 <= i < steps.len() && steps[i].works_on() is Some ==> {
            let bind = Step::BindThread { rank: steps[i].works_on()->0 };
            let look = Step::RequireStream { rank: steps[i].works_on()->0 };
            ||| i >= 1 && steps[i - 1] == bind
            ||| i >= 2 && steps[i - 1] == look && steps[i - 2] == bind
        }
}

proof fn lemma_bound_concat(a: Seq<Step>, b: Seq<Step>)
    requires
        work_is_bound(a),
        work_is_bound(b),
    ensures
        work_is_bound(a + b),
{
    let both = a + b;
    assert forall|i: int|
        #![trigger both[i].works_on()]
        0 <= i < both.len() && both[i].works_on() is Some implies {
        let bind = Step::BindThread { rank: both[i].works_on()->0 };
        let look = Step::RequireStream { rank: both[i].works_on()->0 };
        ||| i >= 1 && both[i - 1] == bind
        ||| i >= 2 && both[i - 1] == look && both[i - 2] == bind
    } by {
        if i < a.len() {
            assert(both[i] == a[i]);
            assert(a[i].works_on() is Some);
        } else {
            let j = i - a.len();
            assert(both[i] == b[j]);
            assert(b[j].works_on() is Some);
            assert(j >= 1 ==> both[i - 1] == b[j - 1]);
            assert(j >= 2 ==> both[i - 2] == b[j - 2]);
        }
    }
}

proof fn lemma_bound_ranks_bound(task: Task, op: usize, from: int, ranks: int)
    requires
        0 <= from <= ranks <= usize::MAX,
    ensures
        work_is_bound(task.by_bound_ranks(op, from, ranks)),
{
    let steps = task.by_bound_ranks(op, from, ranks);
    assert forall|i: int|
        #![trigger steps[i].works_on()]
        0 <= i < steps.len() && steps[i].works_on() is Some implies i >= 1 && steps[i - 1]
        == (Step::BindThread { rank: steps[i].works_on()->0 }) by {
        assert(i % 2 == 1);
        assert((i - 1) / 2 == i / 2);
        assert(steps[i] == task.step(op, (from + i / 2) as usize));
        assert(steps[i - 1] == Step::BindThread { rank: (from + i / 2) as usize });
    }
}

proof fn lemma_zero_partials_bound(ranks: int, residual_dim: usize)
    requires
        0 <= ranks <= usize::MAX,
    ensures
        work_is_bound(script::zero_partials(ranks, residual_dim)),
{
    let steps = script::zero_partials(ranks, residual_dim);
    assert forall|i: int|
        #![trigger steps[i].works_on()]
        0 <= i < steps.len() && steps[i].works_on() is Some implies {
        let rank = steps[i].works_on()->0;
        &&& i >= 2
        &&& steps[i - 1] == (Step::RequireStream { rank })
        &&& steps[i - 2] == (Step::BindThread { rank })
    } by {
        assert(i % 3 == 2);
        assert((i - 1) / 3 == i / 3 && (i - 2) / 3 == i / 3);
    }
}

/// The exchange of partials that ends an op, over `over`.
spec fn exchange_of(finish: Finish, over: Buffers, residual_dim: usize) -> Step {
    match finish {
        Finish::PeerHc3 => Step::Barrier { before: over },
        Finish::PeerHc4 => Step::Barrier { before: over },
        Finish::AllReduce => Step::AllReduce { over, count: residual_dim },
    }
}

/// What brings an attention op's result into the residuals.
spec fn attend_result(finish: Finish) -> Task {
    match finish {
        Finish::PeerHc3 => Task::FinishAttendPeerHc3,
        Finish::PeerHc4 => Task::FinishAttendPeerHc4,
        Finish::AllReduce => Task::FinishAttend,
    }
}

/// What brings a MoE op's result into the residuals.
spec fn moe_result(finish: Finish) -> Task {
    match finish {
        Finish::PeerHc3 => Task::FinishMoePeerHc3,
        Finish::PeerHc4 => Task::FinishMoePeerHc4,
        Finish::AllReduce => Task::AddIntoResidual,
    }
}

/// An op ends in one exchange, and then in one task of every rank.
proof fn lemma_finishes(finish: Finish, op: usize, ranks: int, residual_dim: usize)
    ensures
        plan::attend_finish(finish, op, ranks, residual_dim)
            == Task::RequireAttentionPartial.by_ranks(op, 0, ranks) + seq![
            exchange_of(finish, Buffers::Attention, residual_dim),
        ] + attend_result(finish).by_bound_ranks(op, 0, ranks),
        plan::moe_finish(finish, op, ranks, residual_dim) == seq![
            exchange_of(finish, Buffers::Routed, residual_dim),
        ] + moe_result(finish).by_bound_ranks(op, 0, ranks),
{
    let present = Task::RequireAttentionPartial.by_ranks(op, 0, ranks);
    let exchange = exchange_of(finish, Buffers::Attention, residual_dim);
    assert(present + seq![exchange] =~= present.push(exchange));
}

/// No device is given work before it is bound, whatever the plan.
pub proof fn plans_bind_before_work(decided: Plan, op: usize, ranks: int, residual_dim: usize)
    requires
        0 < ranks <= usize::MAX,
    ensures
        work_is_bound(decided.script(op, ranks, residual_dim)),
{
    let zero = script::zero_partials(ranks, residual_dim);
    lemma_zero_partials_bound(ranks, residual_dim);
    match decided {
        Plan::Replicated => {
            lemma_bound_ranks_bound(Task::Dispatch, op, 0, ranks);
        },
        Plan::AttentionTp { ending } => {
            lemma_bound_ranks_bound(Task::RunAttend, op, 0, ranks);
            if let Ending::Decided(f) = ending {
                let present = Task::RequireAttentionPartial.by_ranks(op, 0, ranks);
                let exchange = seq![exchange_of(f, Buffers::Attention, residual_dim)];
                let result = attend_result(f).by_bound_ranks(op, 0, ranks);
                lemma_finishes(f, op, ranks, residual_dim);
                lemma_bound_ranks_bound(attend_result(f), op, 0, ranks);
                lemma_bound_concat(present, exchange);
                lemma_bound_concat(present + exchange, result);
                lemma_bound_concat(plan::attend_shards(op, ranks), present + exchange + result);
            }
        },
        Plan::RankPartial { ending } => {
            lemma_bound_ranks_bound(Task::RunMoe, op, 0, ranks);
            lemma_bound_concat(zero, Task::RunMoe.by_bound_ranks(op, 0, ranks));
            if let Ending::Decided(f) = ending {
                let exchange = seq![exchange_of(f, Buffers::Routed, residual_dim)];
                let result = moe_result(f).by_bound_ranks(op, 0, ranks);
                lemma_finishes(f, op, ranks, residual_dim);
                lemma_bound_ranks_bound(moe_result(f), op, 0, ranks);
                lemma_bound_concat(exchange, result);
                lemma_bound_concat(
                    plan::rank_partials(op, ranks, residual_dim),
                    exchange + result,
                );
            }
        },
        Plan::RootRouted { k } => {
            let root = seq![Step::BindThread { rank: 0 }, Step::RunMoeRoot { op }];
            let views = Task::RequireRouteView.by_ranks(op, 1, ranks);
            lemma_bound_concat(plan::preflight(op, ranks), zero);
            lemma_bound_concat(plan::preflight(op, ranks) + zero, root);
            lemma_bound_concat(plan::preflight(op, ranks) + zero + root, views);
            if let Some(k) = k {
                let route = seq![Step::BroadcastRoute { k }];
                let others = Task::RunMoeContrib.by_bound_ranks(op, 1, ranks);
                let sum = seq![Step::AllReduce { over: Buffers::Routed, count: residual_dim }];
                let add = Task::AddIntoResidual.by_bound_ranks(op, 0, ranks);
                lemma_bound_ranks_bound(Task::RunMoeContrib, op, 1, ranks);
                lemma_bound_ranks_bound(Task::AddIntoResidual, op, 0, ranks);
                lemma_bound_concat(route, others);
                lemma_bound_concat(route + others, sum);
                lemma_bound_concat(route + others + sum, add);
                lemma_bound_concat(
                    plan::root_part(op, ranks, residual_dim),
                    plan::contributions(op, ranks, residual_dim, k),
                );
            }
        },
        _ => {},
    }
}

/// The phase of an op that a step belongs to: validation, zeroing, the ranks'
/// own work (the root's first, where it routes), the route's copy, the work
/// under it, the exchange of partials, the residuals. Binding a device and
/// looking for its stream belong to none.
pub open spec fn phase(step: Step) -> Option<int> {
    match step {
        Step::BindThread { rank } => None,
        Step::CreateStream { rank } => None,
        Step::RequireStream { rank } => None,
        Step::PreflightRoot { op } => Some(0),
        Step::PreflightContrib { op, rank } => Some(1),
        Step::ZeroPartial { rank, count } => Some(2),
        Step::Dispatch { op, rank } => Some(3),
        Step::RunAttend { op, rank } => Some(3),
        Step::RunMoe { op, rank, skip_shared } => Some(3),
        Step::RunMoeRoot { op } => Some(3),
        Step::RequireAttentionPartial { rank } => Some(4),
        Step::RequireRouteView { rank } => Some(4),
        Step::BroadcastRoute { k } => Some(5),
        Step::RunMoeContrib { op, rank } => Some(6),
        Step::Barrier { before } => Some(7),
        Step::AllReduce { over, count } => Some(7),
        Step::FinishAttend { rank } => Some(8),
        Step::FinishAttendPeerHc3 { rank } => Some(8),
        Step::FinishAttendPeerHc4 { rank } => Some(8),
        Step::FinishMoePeerHc3 { rank } => Some(8),
        Step::FinishMoePeerHc4 { rank } => Some(8),
        Step::AddIntoResidual { rank } => Some(8),
    }
}

/// No step of a phase comes before a step of an earlier phase.
pub open spec fn phases_in_order(steps: Seq<Step>) -> bool {
    forall|i: int, j: int|
        #![trigger phase(steps[i]), phase(steps[j])]
        0 <= i < j < steps.len() && phase(steps[i]) is Some && phase(steps[j]) is Some ==> phase(
            steps[i],
        )->0 <= phase(steps[j])->0
}

/// All steps that have a phase have this one.
spec fn of_phase(steps: Seq<Step>, p: int) -> bool {
    forall|i: int|
        #![trigger phase(steps[i])]
        0 <= i < steps.len() && phase(steps[i]) is Some ==> phase(steps[i])->0 == p
}

/// No step is of a later phase than `p`.
spec fn up_to_phase(steps: Seq<Step>, p: int) -> bool {
    forall|i: int|
        #![trigger phase(steps[i])]
        0 <= i < steps.len() && phase(steps[i]) is Some ==> phase(steps[i])->0 <= p
}

/// Steps of one phase behind steps of phases up to it.
proof fn lemma_phase_behind(a: Seq<Step>, b: Seq<Step>, p: int, q: int)
    requires
        phases_in_order(a),
        up_to_phase(a, p),
        of_phase(b, q),
        p <= q,
    ensures
        phases_in_order(a + b),
        up_to_phase(a + b, q),
{
    let both = a + b;
    assert forall|i: int, j: int|
        #![trigger phase(both[i]), phase(both[j])]
        0 <= i < j < both.len() && phase(both[i]) is Some && phase(both[j]) is Some implies phase(
        both[i],
    )->0 <= phase(both[j])->0 by {
        if i < a.len() {
            assert(both[i] == a[i]);
            assert(phase(a[i]) is Some);
        } else {
            assert(both[i] == b[i - a.len()]);
            assert(phase(b[i - a.len()]) is Some);
        }
        if j < a.len() {
            assert(both[j] == a[j]);
            assert(phase(a[j]) is Some);
        } else {
            assert(both[j] == b[j - a.len()]);
            assert(phase(b[j - a.len()]) is Some);
        }
    }
    assert forall|i: int|
        #![trigger phase(both[i])]
        0 <= i < both.len() && phase(both[i]) is Some implies phase(both[i])->0 <= q by {
        if i < a.len() {
            assert(both[i] == a[i]);
            assert(phase(a[i]) is Some);
        } else {
            assert(both[i] == b[i - a.len()]);
            assert(phase(b[i - a.len()]) is Some);
        }
    }
}

/// The tasks that end an op are of the last phase.
proof fn lemma_result_phase(task: Task, op: usize, ranks: int)
    requires
        task == Task::FinishAttend || task == Task::FinishAttendPeerHc3 || task
            == Task::FinishAttendPeerHc4 || task == Task::FinishMoePeerHc3 || task
            == Task::FinishMoePeerHc4 || task == Task::AddIntoResidual,
    ensures
        of_phase(task.by_bound_ranks(op, 0, ranks), 8),
{
}

/// The phases of a tensor-parallel attention op.
proof fn lemma_attention_phases(finish: Finish, op: usize, ranks: int, residual_dim: usize)
    requires
        0 < ranks <= usize::MAX,
    ensures
        phases_in_order(
            (Plan::AttentionTp { ending: Ending::Decided(finish) }).script(op, ranks, residual_dim),
        ),
{
    let shards = plan::attend_shards(op, ranks);
    let present = Task::RequireAttentionPartial.by_ranks(op, 0, ranks);
    let exchange = seq![exchange_of(finish, Buffers::Attention, residual_dim)];
    let result = attend_result(finish).by_bound_ranks(op, 0, ranks);
    lemma_finishes(finish, op, ranks, residual_dim);
    assert(of_phase(shards, 3));
    lemma_phase_behind(shards, present, 3, 4);
    lemma_phase_behind(shards + present, exchange, 4, 7);
    lemma_result_phase(attend_result(finish), op, ranks);
    lemma_phase_behind(shards + present + exchange, result, 7, 8);
    assert(shards + present + exchange + result =~= shards + (present + exchange + result));
}

/// The phases of a MoE op whose ranks route for themselves.
proof fn lemma_rank_partial_phases(finish: Finish, op: usize, ranks: int, residual_dim: usize)
    requires
        0 < ranks <= usize::MAX,
        phases_in_order(plan::rank_partials(op, ranks, residual_dim)),
        up_to_phase(plan::rank_partials(op, ranks, residual_dim), 3),
    ensures
        phases_in_order(
            (Plan::RankPartial { ending: Ending::Decided(finish) }).script(op, ranks, residual_dim),
        ),
{
    let partials = plan::rank_partials(op, ranks, residual_dim);
    let exchange = seq![exchange_of(finish, Buffers::Routed, residual_dim)];
    let result = moe_result(finish).by_bound_ranks(op, 0, ranks);
    lemma_finishes(finish, op, ranks, residual_dim);
    lemma_phase_behind(partials, exchange, 3, 7);
    lemma_result_phase(moe_result(finish), op, ranks);
    lemma_phase_behind(partials + exchange, result, 7, 8);
    assert(partials + exchange + result =~= partials + (exchange + result));
}

/// The phases of an op never interleave. So, where the root routes, every rank
/// is validated before any partial is zeroed; all partials are zeroed before any
/// expert runs; the root runs before its route is copied, and the others behind
/// that; and no residual is touched before the partials are exchanged.
pub proof fn phases_never_interleave(decided: Plan, op: usize, ranks: int, residual_dim: usize)
    requires
        0 < ranks <= usize::MAX,
    ensures
        phases_in_order(decided.script(op, ranks, residual_dim)),
{
    let zero = script::zero_partials(ranks, residual_dim);
    let none = Seq::<Step>::empty();
    match decided {
        Plan::Replicated => {
            assert(of_phase(Task::Dispatch.by_bound_ranks(op, 0, ranks), 3));
        },
        Plan::AttentionTp { ending } => {
            assert(of_phase(plan::attend_shards(op, ranks), 3));
            if let Ending::Decided(f) = ending {
                lemma_attention_phases(f, op, ranks, residual_dim);
            }
        },
        Plan::RankPartial { ending } => {
            lemma_phase_behind(none, zero, 2, 2);
            assert(none + zero =~= zero);
            lemma_phase_behind(zero, Task::RunMoe.by_bound_ranks(op, 0, ranks), 2, 3);
            if let Ending::Decided(f) = ending {
                lemma_rank_partial_phases(f, op, ranks, residual_dim);
            }
        },
        Plan::RootRouted { k } => {
            let first = seq![Step::PreflightRoot { op }];
            let others = Task::PreflightContrib.by_ranks(op, 1, ranks);
            let root = seq![Step::BindThread { rank: 0 }, Step::RunMoeRoot { op }];
            let views = Task::RequireRouteView.by_ranks(op, 1, ranks);
            lemma_phase_behind(first, others, 0, 1);
            lemma_phase_behind(first + others, zero, 1, 2);
            lemma_phase_behind(first + others + zero, root, 2, 3);
            lemma_phase_behind(first + others + zero + root, views, 3, 4);
            if let Some(k) = k {
                let part = plan::root_part(op, ranks, residual_dim);
                let route = seq![Step::BroadcastRoute { k }];
                let work = Task::RunMoeContrib.by_bound_ranks(op, 1, ranks);
                let sum = seq![Step::AllReduce { over: Buffers::Routed, count: residual_dim }];
                let add = Task::AddIntoResidual.by_bound_ranks(op, 0, ranks);
                lemma_phase_behind(part, route, 4, 5);
                lemma_phase_behind(part + route, work, 5, 6);
                lemma_phase_behind(part + route + work, sum, 6, 7);
                lemma_phase_behind(part + route + work + sum, add, 7, 8);
                assert(part + route + work + sum + add =~= decided.script(
                    op,
                    ranks,
                    residual_dim,
                ));
            }
        },
        _ => {},
    }
}

/// Where the root routes, the run begins with the validation of every rank, the
/// root first, and does nothing else until all have passed.
pub proof fn root_routed_validates_first(
    k: Option<usize>,
    op: usize,
    ranks: int,
    residual_dim: usize,
    i: int,
)
    requires
        0 < ranks <= usize::MAX,
        0 <= i < (Plan::RootRouted { k }).script(op, ranks, residual_dim).len(),
    ensures
        ({
            let step = (Plan::RootRouted { k }).script(op, ranks, residual_dim)[i];
            &&& i == 0 <==> step is PreflightRoot
            &&& 0 < i < ranks <==> step is PreflightContrib
            &&& i == 0 ==> step == (Step::PreflightRoot { op })
            &&& 0 < i < ranks ==> step == (Step::PreflightContrib { op, rank: i as usize })
        }),
{
}

/// Where the root routes, no rank routes for itself, and where every rank does,
/// no rank waits for the root: one combine never falls back on the other.
pub proof fn combines_do_not_mix(decided: Plan, op: usize, ranks: int, residual_dim: usize, i: int)
    requires
        0 < ranks <= usize::MAX,
        0 <= i < decided.script(op, ranks, residual_dim).len(),
    ensures
        ({
            let step = decided.script(op, ranks, residual_dim)[i];
            &&& decided is RootRouted ==> !(step is RunMoe)
            &&& decided is RankPartial ==> !(step is RunMoeRoot) && !(step is RunMoeContrib)
                && !(step is BroadcastRoute)
        }),
{
}

/// How many of `steps` are such as `f` says.
pub open spec fn count(steps: Seq<Step>, f: spec_fn(Step) -> bool) -> nat
    decreases steps.len(),
{
    if steps.len() == 0 {
        0
    } else {
        count(steps.drop_last(), f) + if f(steps.last()) {
            1nat
        } else {
            0nat
        }
    }
}

proof fn lemma_count_concat(a: Seq<Step>, b: Seq<Step>, f: spec_fn(Step) -> bool)
    ensures
        count(a + b, f) == count(a, f) + count(b, f),
    decreases b.len(),
{
    if b.len() == 0 {
        assert(a + b =~= a);
    } else {
        assert((a + b).drop_last() =~= a + b.drop_last());
        lemma_count_concat(a, b.drop_last(), f);
    }
}

proof fn lemma_count_none(steps: Seq<Step>, f: spec_fn(Step) -> bool)
    requires
        forall|i: int| 0 <= i < steps.len() ==> !f(#[trigger] steps[i]),
    ensures
        count(steps, f) == 0,
    decreases steps.len(),
{
    if steps.len() > 0 {
        assert forall|i: int| 0 <= i < steps.drop_last().len() implies !f(
            #[trigger] steps.drop_last()[i],
        ) by {
            assert(steps.drop_last()[i] == steps[i]);
        }
        assert(!f(steps[steps.len() - 1]));
        lemma_count_none(steps.drop_last(), f);
    }
}

proof fn lemma_count_one(steps: Seq<Step>, f: spec_fn(Step) -> bool, at: int)
    requires
        0 <= at < steps.len(),
        f(steps[at]),
        forall|i: int| 0 <= i < steps.len() && i != at ==> !f(#[trigger] steps[i]),
    ensures
        count(steps, f) == 1,
    decreases steps.len(),
{
    let front = steps.drop_last();
    assert forall|i: int| 0 <= i < front.len() && i != at implies !f(#[trigger] front[i]) by {
        assert(front[i] == steps[i]);
    }
    if at == steps.len() - 1 {
        lemma_count_none(front, f);
    } else {
        assert(!f(steps[steps.len() - 1]));
        lemma_count_one(front, f, at);
    }
}

/// Of the steps that the ranks take in turn, `f` tells those of `rank`.
spec fn tells_rank(f: spec_fn(Step) -> bool, task: Task, op: usize, rank: int, ranks: int) -> bool {
    &&& forall|q: int|
        0 <= q < ranks ==> f(#[trigger] task.step(op, q as usize)) == (q == rank)
    &&& forall|q: usize| !(#[trigger] f(Step::BindThread { rank: q }))
}

proof fn lemma_count_task(
    f: spec_fn(Step) -> bool,
    task: Task,
    op: usize,
    from: int,
    ranks: int,
    rank: int,
)
    requires
        0 <= from <= ranks <= usize::MAX,
        0 <= rank < ranks,
        tells_rank(f, task, op, rank, ranks),
    ensures
        count(task.by_bound_ranks(op, from, ranks), f) == if from <= rank {
            1nat
        } else {
            0nat
        },
{
    let steps = task.by_bound_ranks(op, from, ranks);
    let at = 2 * (rank - from) + 1;
    assert forall|i: int| 0 <= i < steps.len() && i != at implies !f(#[trigger] steps[i]) by {
        let q = from + i / 2;
        if i % 2 == 0 {
            assert(steps[i] == Step::BindThread { rank: q as usize });
        } else {
            assert(steps[i] == task.step(op, q as usize));
        }
    }
    if from <= rank {
        assert(at / 2 == rank - from && at % 2 == 1);
        assert(steps[at] == task.step(op, rank as usize));
        lemma_count_one(steps, f, at);
    } else {
        lemma_count_none(steps, f);
    }
}

/// The rank's own work on an op.
pub open spec fn own_work(rank: int) -> spec_fn(Step) -> bool {
    |step: Step|
        match step {
            Step::Dispatch { op, rank: r } => r == rank,
            Step::RunAttend { op, rank: r } => r == rank,
            Step::RunMoe { op, rank: r, skip_shared } => r == rank,
            Step::RunMoeRoot { op } => rank == 0,
            Step::RunMoeContrib { op, rank: r } => r == rank,
            _ => false,
        }
}

/// What brings an op's result into the rank's residual.
pub open spec fn into_residual(rank: int) -> spec_fn(Step) -> bool {
    |step: Step|
        match step {
            Step::FinishAttend { rank: r } => r == rank,
            Step::FinishAttendPeerHc3 { rank: r } => r == rank,
            Step::FinishAttendPeerHc4 { rank: r } => r == rank,
            Step::FinishMoePeerHc3 { rank: r } => r == rank,
            Step::FinishMoePeerHc4 { rank: r } => r == rank,
            Step::AddIntoResidual { rank: r } => r == rank,
            _ => false,
        }
}

/// The zeroing of the rank's routed partial.
pub open spec fn zeroing(rank: int) -> spec_fn(Step) -> bool {
    |step: Step|
        match step {
            Step::ZeroPartial { rank: r, count } => r == rank,
            _ => false,
        }
}

/// What runs the shared expert.
pub open spec fn shared_expert() -> spec_fn(Step) -> bool {
    |step: Step|
        match step {
            Step::RunMoe { op, rank, skip_shared } => !skip_shared,
            Step::RunMoeRoot { op } => true,
            _ => false,
        }
}

/// The exchange of partials between the ranks.
pub open spec fn exchange() -> spec_fn(Step) -> bool {
    |step: Step|
        match step {
            Step::Barrier { before } => true,
            Step::AllReduce { over, count } => true,
            _ => false,
        }
}

/// How often each kind of step occurs in `steps`.
pub struct Tally {
    /// The rank's own work.
    pub own_work: nat,
    /// Results brought into the rank's residual.
    pub into_residual: nat,
    /// Zeroings of the rank's routed partial.
    pub zeroing: nat,
    /// Runs of the shared expert, on any rank.
    pub shared_expert: nat,
    /// Exchanges of partials.
    pub exchange: nat,
}

/// The tally of `steps`, as far as it concerns `rank`.
pub open spec fn tally(steps: Seq<Step>, rank: int) -> Tally {
    Tally {
        own_work: count(steps, own_work(rank)),
        into_residual: count(steps, into_residual(rank)),
        zeroing: count(steps, zeroing(rank)),
        shared_expert: count(steps, shared_expert()),
        exchange: count(steps, exchange()),
    }
}

/// Two tallies taken together.
spec fn sum_of(a: Tally, b: Tally) -> Tally {
    Tally {
        own_work: a.own_work + b.own_work,
        into_residual: a.into_residual + b.into_residual,
        zeroing: a.zeroing + b.zeroing,
        shared_expert: a.shared_expert + b.shared_expert,
        exchange: a.exchange + b.exchange,
    }
}

spec fn nothing() -> Tally {
    Tally { own_work: 0, into_residual: 0, zeroing: 0, shared_expert: 0, exchange: 0 }
}

proof fn lemma_tally_concat(a: Seq<Step>, b: Seq<Step>, rank: int)
    ensures
        tally(a + b, rank) == sum_of(tally(a, rank), tally(b, rank)),
{
    lemma_count_concat(a, b, own_work(rank));
    lemma_count_concat(a, b, into_residual(rank));
    lemma_count_concat(a, b, zeroing(rank));
    lemma_count_concat(a, b, shared_expert());
    lemma_count_concat(a, b, exchange());
}

proof fn lemma_tally_zero_partials(ranks: int, residual_dim: usize, rank: int)
    requires
        0 <= rank < ranks <= usize::MAX,
    ensures
        tally(script::zero_partials(ranks, residual_dim), rank) == (Tally { zeroing: 1, ..nothing() }),
{
    let steps = script::zero_partials(ranks, residual_dim);
    let f = zeroing(rank);
    let at = 3 * rank + 2;
    assert(at / 3 == rank && at % 3 == 2);
    assert(steps[at] == Step::ZeroPartial { rank: rank as usize, count: residual_dim });
    assert forall|i: int| 0 <= i < steps.len() && i != at implies !f(#[trigger] steps[i]) by {
        if i % 3 == 2 {
            assert(i / 3 != rank);
        }
    }
    lemma_count_one(steps, f, at);
    lemma_count_none(steps, own_work(rank));
    lemma_count_none(steps, into_residual(rank));
    lemma_count_none(steps, shared_expert());
    lemma_count_none(steps, exchange());
}

/// One step, neither work nor result nor zeroing of any rank.
proof fn lemma_tally_single(step: Step, rank: int)
    requires
        step.works_on() is None,
    ensures
        tally(seq![step], rank) == (Tally {
            exchange: if exchange()(step) {
                1
            } else {
                0
            },
            ..nothing()
        }),
{
    let steps = seq![step];
    lemma_count_none(steps, own_work(rank));
    lemma_count_none(steps, into_residual(rank));
    lemma_count_none(steps, zeroing(rank));
    lemma_count_none(steps, shared_expert());
    if exchange()(step) {
        lemma_count_one(steps, exchange(), 0);
    } else {
        lemma_count_none(steps, exchange());
    }
}

/// Looks and validations.
proof fn lemma_tally_unbound(task: Task, op: usize, from: int, ranks: int, rank: int)
    requires
        task == Task::RequireAttentionPartial || task == Task::RequireRouteView || task
            == Task::PreflightContrib,
    ensures
        tally(task.by_ranks(op, from, ranks), rank) == nothing(),
{
    let steps = task.by_ranks(op, from, ranks);
    lemma_count_none(steps, own_work(rank));
    lemma_count_none(steps, into_residual(rank));
    lemma_count_none(steps, zeroing(rank));
    lemma_count_none(steps, shared_expert());
    lemma_count_none(steps, exchange());
}

/// Own work that the ranks do in turn.
proof fn lemma_tally_work(task: Task, op: usize, from: int, ranks: int, rank: int)
    requires
        0 <= from <= ranks <= usize::MAX,
        0 <= rank < ranks,
        task == Task::Dispatch || task == Task::RunAttend || task == Task::RunMoe || task
            == Task::RunMoeContrib,
        task == Task::RunMoe ==> from == 0,
    ensures
        tally(task.by_bound_ranks(op, from, ranks), rank) == (Tally {
            own_work: if from <= rank {
                1
            } else {
                0
            },
            shared_expert: if task == Task::RunMoe {
                1
            } else {
                0
            },
            ..nothing()
        }),
{
    let steps = task.by_bound_ranks(op, from, ranks);
    lemma_count_task(own_work(rank), task, op, from, ranks, rank);
    lemma_count_none(steps, into_residual(rank));
    lemma_count_none(steps, zeroing(rank));
    lemma_count_none(steps, exchange());
    if task == Task::RunMoe {
        lemma_count_task(shared_expert(), task, op, 0, ranks, 0);
    } else {
        lemma_count_none(steps, shared_expert());
    }
}

/// Results that the ranks bring into their residuals in turn.
proof fn lemma_tally_result(task: Task, op: usize, ranks: int, rank: int)
    requires
        0 <= rank < ranks <= usize::MAX,
        task == Task::FinishAttend || task == Task::FinishAttendPeerHc3 || task
            == Task::FinishAttendPeerHc4 || task == Task::FinishMoePeerHc3 || task
            == Task::FinishMoePeerHc4 || task == Task::AddIntoResidual,
    ensures
        tally(task.by_bound_ranks(op, 0, ranks), rank) == (Tally { into_residual: 1, ..nothing() }),
{
    let steps = task.by_bound_ranks(op, 0, ranks);
    lemma_count_task(into_residual(rank), task, op, 0, ranks, rank);
    lemma_count_none(steps, own_work(rank));
    lemma_count_none(steps, zeroing(rank));
    lemma_count_none(steps, shared_expert());
    lemma_count_none(steps, exchange());
}

/// The root's run.
proof fn lemma_tally_root(op: usize, rank: int)
    requires
        0 <= rank,
    ensures
        tally(seq![Step::BindThread { rank: 0 }, Step::RunMoeRoot { op }], rank) == (Tally {
            own_work: if rank == 0 {
                1
            } else {
                0
            },
            shared_expert: 1,
            ..nothing()
        }),
{
    let steps = seq![Step::BindThread { rank: 0 }, Step::RunMoeRoot { op }];
    lemma_count_none(steps, into_residual(rank));
    lemma_count_none(steps, zeroing(rank));
    lemma_count_none(steps, exchange());
    lemma_count_one(steps, shared_expert(), 1);
    if rank == 0 {
        lemma_count_one(steps, own_work(rank), 1);
    } else {
        lemma_count_none(steps, own_work(rank));
    }
}

/// The end of an attention op.
proof fn lemma_tally_attend_finish(
    finish: Finish,
    op: usize,
    ranks: int,
    residual_dim: usize,
    rank: int,
)
    requires
        0 <= rank < ranks <= usize::MAX,
    ensures
        tally(plan::attend_finish(finish, op, ranks, residual_dim), rank) == (Tally {
            into_residual: 1,
            exchange: 1,
            ..nothing()
        }),
{
    let present = Task::RequireAttentionPartial.by_ranks(op, 0, ranks);
    let between = exchange_of(finish, Buffers::Attention, residual_dim);
    let last = attend_result(finish).by_bound_ranks(op, 0, ranks);
    lemma_finishes(finish, op, ranks, residual_dim);
    lemma_tally_unbound(Task::RequireAttentionPartial, op, 0, ranks, rank);
    lemma_tally_single(between, rank);
    lemma_tally_result(attend_result(finish), op, ranks, rank);
    lemma_tally_concat(present, seq![between], rank);
    lemma_tally_concat(present + seq![between], last, rank);
}

/// The end of a MoE op.
proof fn lemma_tally_moe_finish(
    finish: Finish,
    op: usize,
    ranks: int,
    residual_dim: usize,
    rank: int,
)
    requires
        0 <= rank < ranks <= usize::MAX,
    ensures
        tally(plan::moe_finish(finish, op, ranks, residual_dim), rank) == (Tally {
            into_residual: 1,
            exchange: 1,
            ..nothing()
        }),
{
    let between = exchange_of(finish, Buffers::Routed, residual_dim);
    let last = moe_result(finish).by_bound_ranks(op, 0, ranks);
    lemma_finishes(finish, op, ranks, residual_dim);
    lemma_tally_single(between, rank);
    lemma_tally_result(moe_result(finish), op, ranks, rank);
    lemma_tally_concat(seq![between], last, rank);
}

/// The root-routed combine as a whole.
proof fn lemma_tally_root_routed(op: usize, ranks: int, residual_dim: usize, k: usize, rank: int)
    requires
        0 <= rank < ranks <= usize::MAX,
    ensures
        tally((Plan::RootRouted { k: Some(k) }).script(op, ranks, residual_dim), rank) == (Tally {
            own_work: 1,
            into_residual: 1,
            zeroing: 1,
            shared_expert: 1,
            exchange: 1,
        }),
{
    let first = seq![Step::PreflightRoot { op }];
    let others = Task::PreflightContrib.by_ranks(op, 1, ranks);
    let zero = script::zero_partials(ranks, residual_dim);
    let root = seq![Step::BindThread { rank: 0 }, Step::RunMoeRoot { op }];
    let views = Task::RequireRouteView.by_ranks(op, 1, ranks);
    lemma_tally_single(Step::PreflightRoot { op }, rank);
    lemma_tally_unbound(Task::PreflightContrib, op, 1, ranks, rank);
    lemma_tally_zero_partials(ranks, residual_dim, rank);
    lemma_tally_root(op, rank);
    lemma_tally_unbound(Task::RequireRouteView, op, 1, ranks, rank);
    lemma_tally_concat(first, others, rank);
    lemma_tally_concat(first + others, zero, rank);
    lemma_tally_concat(first + others + zero, root, rank);
    lemma_tally_concat(first + others + zero + root, views, rank);

    let route = seq![Step::BroadcastRoute { k }];
    let work = Task::RunMoeContrib.by_bound_ranks(op, 1, ranks);
    let sum = seq![Step::AllReduce { over: Buffers::Routed, count: residual_dim }];
    let add = Task::AddIntoResidual.by_bound_ranks(op, 0, ranks);
    lemma_tally_single(Step::BroadcastRoute { k }, rank);
    lemma_tally_work(Task::RunMoeContrib, op, 1, ranks, rank);
    lemma_tally_single(Step::AllReduce { over: Buffers::Routed, count: residual_dim }, rank);
    lemma_tally_result(Task::AddIntoResidual, op, ranks, rank);
    lemma_tally_concat(route, work, rank);
    lemma_tally_concat(route + work, sum, rank);
    lemma_tally_concat(route + work + sum, add, rank);
    lemma_tally_concat(
        plan::root_part(op, ranks, residual_dim),
        plan::contributions(op, ranks, residual_dim, k),
        rank,
    );
}

/// On an op that is run to its end every rank does its own work exactly once,
/// and, unless the op is replicated, brings the result into its residual exactly
/// once, behind the one exchange of partials. On a MoE op every routed partial
/// is zeroed exactly once and the shared expert runs exactly once in all.
pub proof fn every_rank_takes_part_once(
    decided: Plan,
    op: usize,
    ranks: int,
    residual_dim: usize,
    rank: int,
)
    requires
        0 <= rank < ranks <= usize::MAX,
        decided != Plan::Ended,
        decided.question() is None,
    ensures
        tally(decided.script(op, ranks, residual_dim), rank) == (Tally {
            own_work: 1,
            into_residual: if decided is Replicated {
                0
            } else {
                1
            },
            zeroing: if decided is RankPartial || decided is RootRouted {
                1
            } else {
                0
            },
            shared_expert: if decided is RankPartial || decided is RootRouted {
                1
            } else {
                0
            },
            exchange: if decided is Replicated {
                0
            } else {
                1
            },
        }),
{
    match decided {
        Plan::AttentionTp { ending } => {
            lemma_tally_work(Task::RunAttend, op, 0, ranks, rank);
            lemma_tally_attend_finish(ending->Decided_0, op, ranks, residual_dim, rank);
            lemma_tally_concat(
                plan::attend_shards(op, ranks),
                plan::attend_finish(ending->Decided_0, op, ranks, residual_dim),
                rank,
            );
        },
        Plan::RankPartial { ending } => {
            lemma_tally_zero_partials(ranks, residual_dim, rank);
            lemma_tally_work(Task::RunMoe, op, 0, ranks, rank);
            lemma_tally_concat(
                script::zero_partials(ranks, residual_dim),
                Task::RunMoe.by_bound_ranks(op, 0, ranks),
                rank,
            );
            lemma_tally_moe_finish(ending->Decided_0, op, ranks, residual_dim, rank);
            lemma_tally_concat(
                plan::rank_partials(op, ranks, residual_dim),
                plan::moe_finish(ending->Decided_0, op, ranks, residual_dim),
                rank,
            );
        },
        Plan::RootRouted { k } => {
            lemma_tally_root_routed(op, ranks, residual_dim, k->0, rank);
        },
        _ => {
            lemma_tally_work(Task::Dispatch, op, 0, ranks, rank);
        },
    }
}

/// A step that is done is the step that was asked for, and it counts as
/// performed once; one that is not done does not count.
pub proof fn performed_steps_are_those_done<E>(state: RunState<E>, outcome: Outcome<E>)
    requires
        state.sound(),
        state.request() is Perform,
    ensures
        state.reported(outcome).performed() == if outcome is Done {
            state.performed().push(state.request()->Perform_0)
        } else {
            state.performed()
        },
{
    let after = state.reported(outcome);
    let steps = state.script();
    if outcome is Done {
        assert(steps.take(state.at + 1) =~= steps.take(state.at).push(steps[state.at]));
        if after.past.len() > state.past.len() {
            assert(after.past.drop_last() =~= state.past);
            assert(steps.take(state.at + 1) =~= steps);
        }
        assert(after.performed() =~= state.performed().push(steps[state.at]));
    }
}

/// An answer performs nothing: it decides what comes next.
pub proof fn answers_perform_nothing<E>(state: RunState<E>, event: Event<E>)
    requires
        state.sound(),
        state.admits(event),
        !(event is Outcome),
    ensures
        state.told(event).performed() == state.performed(),
{
    let after = state.told(event);
    assert(after.script().take(state.at) =~= state.script().take(state.at));
}

/// Any error is final: what is refused or fails stops the run, and a run that
/// has stopped asks for nothing more.
pub proof fn errors_are_final<E>(state: RunState<E>, outcome: Outcome<E>, error: EpError)
    ensures
        !(outcome is Done) ==> state.reported(outcome).request() == Request::Stopped,
        state.refused(error).request() == Request::Stopped,
        state.stop is Some <==> state.request() == Request::Stopped,
{
}

/// A run that is complete has run every op of the program in order, each by a
/// plan of its kind and to the end.
pub proof fn complete_runs_ran_everything<E>(state: RunState<E>)
    requires
        state.sound(),
        state.request() == Request::Complete,
    ensures
        state.stop is None,
        state.past.len() == state.program.len(),
        forall|i: int| 0 <= i < state.program.len() ==> {
            &&& (#[trigger] state.past[i]).question() is None
            &&& state.past[i].suits(state.program[i], state.ranks as int, state.residual_dim)
        },
        state.performed() == run::past_steps(state.past, state.ranks as int, state.residual_dim),
{
    assert(state.script().take(state.at) =~= Seq::empty());
    assert(state.performed() =~= run::past_steps(
        state.past,
        state.ranks as int,
        state.residual_dim,
    ));
}

proof fn lemma_past_bound(past: Seq<Plan>, ranks: int, residual_dim: usize)
    requires
        0 < ranks <= usize::MAX,
    ensures
        work_is_bound(run::past_steps(past, ranks, residual_dim)),
    decreases past.len(),
{
    if past.len() > 0 {
        let op = (past.len() - 1) as usize;
        lemma_past_bound(past.drop_last(), ranks, residual_dim);
        plans_bind_before_work(past.last(), op, ranks, residual_dim);
        lemma_bound_concat(
            run::past_steps(past.drop_last(), ranks, residual_dim),
            past.last().script(op, ranks, residual_dim),
        );
    }
}

/// At no point of a run has a device been given work without being bound.
pub proof fn runs_bind_before_work<E>(state: RunState<E>)
    requires
        state.sound(),
        state.ranks > 0,
    ensures
        work_is_bound(state.performed()),
{
    let ranks = state.ranks as int;
    let steps = state.script();
    let done = steps.take(state.at);
    lemma_past_bound(state.past, ranks, state.residual_dim);
    plans_bind_before_work(state.plan, state.past.len() as usize, ranks, state.residual_dim);
    assert forall|i: int|
        #![trigger done[i].works_on()]
        0 <= i < done.len() && done[i].works_on() is Some implies {
        let bind = Step::BindThread { rank: done[i].works_on()->0 };
        let look = Step::RequireStream { rank: done[i].works_on()->0 };
        ||| i >= 1 && done[i - 1] == bind
        ||| i >= 2 && done[i - 1] == look && done[i - 2] == bind
    } by {
        assert(steps[i].works_on() is Some);
    }
    lemma_bound_concat(run::past_steps(state.past, ranks, state.residual_dim), done);
}

/// Without ranks nothing is performed: a program without a MoE op is complete at
/// once, and one with such an op is asked for the combine at once.
pub proof fn empty_meshes_do_nothing<E>(residual_dim: usize, program: Seq<OpKind>)
    ensures
        ({
            let state = RunState::<E>::start(0, residual_dim, program);
            &&& state.performed() == Seq::<Step>::empty()
            &&& state.request() == if program.contains(OpKind::Moe) {
                Request::Answer(Question::CombineModes)
            } else {
                Request::Complete
            }
        }),
{
    let state = RunState::<E>::start(0, residual_dim, program);
    trace::lemma_next_moe(program, 0);
    lemma_empty_past(state.past, residual_dim);
    assert(state.performed() =~= Seq::<Step>::empty());
    if program.contains(OpKind::Moe) {
        let i = choose|i: int| 0 <= i < program.len() && program[i] == OpKind::Moe;
        assert(run::next_moe(program, 0) <= i);
    }
}

proof fn lemma_empty_past(past: Seq<Plan>, residual_dim: usize)
    requires
        forall|i: int| 0 <= i < past.len() ==> #[trigger] past[i] == Plan::Replicated,
    ensures
        run::past_steps(past, 0, residual_dim) == Seq::<Step>::empty(),
    decreases past.len(),
{
    if past.len() > 0 {
        lemma_empty_past(past.drop_last(), residual_dim);
        assert(past.last() == past[past.len() - 1]);
        assert(run::past_steps(past, 0, residual_dim) =~= Seq::<Step>::empty());
    }
}

/// Attention is replicated unless some rank asks for tensor parallelism: then
/// all must, and a mesh in which only some do is refused.
pub proof fn attention_is_replicated_by_default<E>(state: RunState<E>, enabled: Seq<bool>)
    requires
        state.stop is None,
    ensures
        (forall|i: int| 0 <= i < enabled.len() ==> !(#[trigger] enabled[i])) ==> {
            &&& state.attention_tp(enabled).plan == Plan::opening(OpKind::Other)
            &&& state.attention_tp(enabled).stop is None
        },
        state.attention_tp(enabled).stop == Some(Stop::<E>::Refused(EpError::MixedAttentionTp))
            <==> exists|i: int, j: int|
            0 <= i < enabled.len() && 0 <= j < enabled.len() && #[trigger] enabled[i]
                && !(#[trigger] enabled[j]),
{
    if !plan::none_set(enabled) && !plan::all_set(enabled) {
        let i = choose|i: int| 0 <= i < enabled.len() && #[trigger] enabled[i];
        let j = choose|j: int| 0 <= j < enabled.len() && !(#[trigger] enabled[j]);
        assert(enabled[i] && !enabled[j]);
    }
}

/// Ranks that want different combines are refused.
pub proof fn mixed_combines_are_refused<E>(state: RunState<E>, modes: Seq<CombineMode>)
    requires
        state.stop is None,
        modes.len() > 0,
    ensures
        state.combine_modes(modes).stop == Some(Stop::<E>::Refused(EpError::MixedCombineModes))
            <==> exists|i: int, j: int|
            0 <= i < modes.len() && 0 <= j < modes.len() && #[trigger] modes[i]
                != #[trigger] modes[j],
{
    let root = CombineMode::RootRoutedPartial;
    let rank = CombineMode::RankPartial;
    if !run::all_want(modes, root) && !run::all_want(modes, rank) {
        let i = choose|i: int| 0 <= i < modes.len() && #[trigger] modes[i] != root;
        let j = choose|j: int| 0 <= j < modes.len() && #[trigger] modes[j] != rank;
        assert(modes[i] == rank && modes[j] == root);
        assert(modes[i] != modes[j]);
    } else {
        assert(modes[0] == root || modes[0] == rank);
    }
}

/// Reports that end once two ranks are told apart, or once a flag is not set,
/// decide as the reports of all ranks would.
pub proof fn early_reports_decide_as_all_would<E>(
    state: RunState<E>,
    enabled: Seq<bool>,
    modes: Seq<CombineMode>,
    flags: Seq<bool>,
    ranks: int,
)
    requires
        0 <= ranks,
        enabled.len() == ranks,
        modes.len() == ranks,
        flags.len() == ranks,
    ensures
        forall|n: int|
            0 <= n <= ranks && plan::reported(enabled.take(n), ranks) ==> #[trigger] state.attention_tp(
                enabled.take(n),
            ) == state.attention_tp(enabled),
        forall|n: int|
            0 <= n <= ranks && plan::reported(modes.take(n), ranks) ==> #[trigger] state.combine_modes(
                modes.take(n),
            ) == state.combine_modes(modes),
        forall|n: int|
            0 <= n <= ranks && plan::flagged(flags.take(n), ranks) ==> #[trigger] plan::all_set(
                flags.take(n),
            ) == plan::all_set(flags),
{
    assert forall|n: int| 0 <= n <= ranks && plan::reported(enabled.take(n), ranks) implies (
    #[trigger] state.attention_tp(enabled.take(n))) == state.attention_tp(enabled) by {
        let part = enabled.take(n);
        if n == ranks {
            assert(part =~= enabled);
        } else {
            let i = choose|i: int| 0 <= i < part.len() && #[trigger] part[i] != part[0];
            assert(part[i] == enabled[i] && part[0] == enabled[0]);
        }
    }
    assert forall|n: int| 0 <= n <= ranks && plan::reported(modes.take(n), ranks) implies (
    #[trigger] state.combine_modes(modes.take(n))) == state.combine_modes(modes) by {
        let part = modes.take(n);
        if n == ranks {
            assert(part =~= modes);
        } else {
            let i = choose|i: int| 0 <= i < part.len() && #[trigger] part[i] != part[0];
            assert(part[i] == modes[i] && part[0] == modes[0]);
        }
    }
    assert forall|n: int| 0 <= n <= ranks && plan::flagged(flags.take(n), ranks) implies (
    #[trigger] plan::all_set(flags.take(n))) == plan::all_set(flags) by {
        let part = flags.take(n);
        if n == ranks {
            assert(part =~= flags);
        } else {
            let i = choose|i: int| 0 <= i < part.len() && !(#[trigger] part[i]);
            assert(part[i] == flags[i]);
        }
    }
}

/// The op at hand is on the root-routed combine.
pub open spec fn on_root_route(decided: Plan) -> bool {
    decided is PartialSizesPending || decided is RouteViewPending || decided is RootRouted
}

/// Once an op is on the root-routed combine it stays there until it is done or
/// the run stops: there is no way back to the ranks' own routing.
pub proof fn root_routing_never_falls_back<E>(state: RunState<E>, event: Event<E>)
    requires
        state.sound(),
        on_root_route(state.plan),
        state.admits(event),
    ensures
        ({
            let after = state.told(event);
            after.past.len() == state.past.len() ==> on_root_route(after.plan)
        }),
        forall|i: int| 0 <= i < state.script().len() ==> !(#[trigger] state.script()[i] is RunMoe),
{
    assert forall|i: int| 0 <= i < state.script().len() implies !(
    #[trigger] state.script()[i] is RunMoe) by {
        combines_do_not_mix(
            state.plan,
            state.past.len() as usize,
            state.ranks as int,
            state.residual_dim,
            i,
        );
    }
}

/// Where all ranks want the root to route, sizes are settled before any rank is
/// asked what it is bound to: too many ranks and bytes that do not fit are
/// refused at once, and too small a partial as soon as the sizes are known, with
/// nothing performed and no rank asked.
pub proof fn sizes_are_settled_before_views<E>(
    state: RunState<E>,
    modes: Seq<CombineMode>,
    partial_bytes: Seq<usize>,
)
    requires
        state.sound(),
        state.admits(Event::CombineModes(modes)),
        run::all_want(modes, CombineMode::RootRoutedPartial),
        partial_bytes.len() == state.ranks,
    ensures
        ({
            let asked = state.combine_modes(modes);
            &&& asked.performed() == state.performed()
            &&& match route::size_error(state.ranks as int, state.residual_dim as int) {
                Some(error) => {
                    &&& asked.stop == Some(Stop::<E>::Refused(error))
                    &&& asked.request() == Request::Stopped
                },
                None => {
                    let sized = asked.partial_sizes(partial_bytes);
                    &&& asked.request() == Request::Answer(Question::PartialSizes)
                    &&& asked.admits(Event::PartialSizes(partial_bytes))
                    &&& sized.performed() == state.performed()
                    &&& match route::sizes_error(partial_bytes, state.residual_dim) {
                        Some(error) => {
                            &&& sized.stop == Some(Stop::<E>::Refused(error))
                            &&& sized.request() == Request::Stopped
                        },
                        None => sized.request() == Request::Answer(
                            Question::RouteView { rank: 0 },
                        ),
                    }
                },
            }
        }),
{
    let asked = state.combine_modes(modes);
    answers_perform_nothing(state, Event::CombineModes(modes));
    trace::events_keep_runs_sound(state, Event::CombineModes(modes));
    if asked.stop is None {
        answers_perform_nothing(asked, Event::PartialSizes(partial_bytes));
    }
}

/// The ranks from `from` on asked what they are bound to, one by one, until one
/// is refused.
pub open spec fn views_told<E>(
    state: RunState<E>,
    views: Seq<Option<RouteView>>,
    from: int,
) -> RunState<E>
    decreases views.len() - from,
{
    if from >= views.len() || state.stop is Some {
        state
    } else {
        views_told(state.route_view(views[from]), views, from + 1)
    }
}

proof fn lemma_views_told<E>(state: RunState<E>, views: Seq<Option<RouteView>>, from: int)
    requires
        state.sound(),
        state.stop is None,
        0 < from < views.len(),
        views.len() == state.ranks,
        state.plan == (Plan::RouteViewPending { root: views[0], rank: from as usize }),
        views[0] is Some,
    ensures
        ({
            let after = views_told(state, views, from);
            match route::ranks_error(views, views[0]->0, from) {
                Some(error) => after.stop == Some(Stop::<E>::Refused(error)),
                None => after == state.on(Plan::RootRouted { k: None }),
            }
        }),
    decreases views.len() - from,
{
    let next = state.route_view(views[from]);
    if next.stop is None && from + 1 < views.len() {
        trace::events_keep_runs_sound(state, Event::RouteView(views[from]));
        lemma_views_told(next, views, from + 1);
        assert(next.on(Plan::RootRouted { k: None }) == state.on(Plan::RootRouted { k: None }));
    } else {
        assert(views_told(next, views, from + 1) == next);
        assert(from + 1 >= views.len() ==> route::ranks_error(views, views[0]->0, from + 1) is None);
    }
}

/// Asking the ranks one by one, the root first, and no further than the first
/// that is refused, comes to what all their views together are refused for; and
/// where none is, the op goes on with all ranks agreed.
pub proof fn views_are_settled_in_turn<E>(state: RunState<E>, views: Seq<Option<RouteView>>)
    requires
        state.sound(),
        state.request() == Request::Answer(Question::RouteView { rank: 0 }),
        views.len() == state.ranks,
    ensures
        ({
            let after = views_told(state, views, 0);
            match route::views_error(views, state.residual_dim) {
                Some(error) => after.stop == Some(Stop::<E>::Refused(error)),
                None => after == state.on(Plan::RootRouted { k: None }),
            }
        }),
{
    let next = state.route_view(views[0]);
    if next.stop is None && 1 < views.len() {
        trace::events_keep_runs_sound(state, Event::RouteView(views[0]));
        lemma_views_told(next, views, 1);
        assert(next.on(Plan::RootRouted { k: None }) == state.on(Plan::RootRouted { k: None }));
    } else {
        assert(views_told(next, views, 1) == next);
        assert(1 >= views.len() ==> route::ranks_error(views, views[0]->0, 1) is None);
    }
}

} // verus!
