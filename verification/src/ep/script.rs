//! The steps that a mesh of ranks performs, and the lists of steps that the
//! executor draws up.

use crate::ep::error::EpError;
use vstd::prelude::*;

verus! {

/// Which per-rank buffers a step works on.
#[derive(Debug, Clone, Copy, PartialEq, Eq, Structural)]
pub enum Buffers {
    /// The attention output partial that each rank's binding holds.
    Attention,
    /// The routed partials that the executor was given.
    Routed,
}

/// One thing for the mesh to do. `op` is an index into the layer program.
#[derive(Debug, Clone, Copy, PartialEq, Eq, Structural)]
pub enum Step {
    /// Make the rank's device current on this thread.
    BindThread { rank: usize },
    /// Create the rank's active stream.
    CreateStream { rank: usize },
    /// Make sure that the rank has an active stream.
    RequireStream { rank: usize },
    /// Make sure that the rank has an attention partial.
    RequireAttentionPartial { rank: usize },
    /// Make sure that the rank still has its route view.
    RequireRouteView { rank: usize },
    /// Run the op unchanged.
    Dispatch { op: usize, rank: usize },
    /// Run the rank's attention shard up to the residual mix.
    RunAttend { op: usize, rank: usize },
    /// Mix the summed attention output into the rank's residual.
    FinishAttend { rank: usize },
    /// The same, reading the partials of three peers.
    FinishAttendPeerHc3 { rank: usize },
    /// The same, reading the partials of four peers.
    FinishAttendPeerHc4 { rank: usize },
    /// Fill the first `count` elements of the rank's routed partial with zeros.
    ZeroPartial { rank: usize, count: usize },
    /// Run the rank's own experts into its partial, with an independent router;
    /// the shared expert too, unless it is to be skipped.
    RunMoe { op: usize, rank: usize, skip_shared: bool },
    /// Mix the routed partials of three peers into the rank's residual.
    FinishMoePeerHc3 { rank: usize },
    /// Mix the routed partials of four peers into the rank's residual.
    FinishMoePeerHc4 { rank: usize },
    /// Add the summed routed partial into the rank's residual.
    AddIntoResidual { rank: usize },
    /// Validate the root's seal inputs, without running anything.
    PreflightRoot { op: usize },
    /// Validate a rank's seal inputs against the root's, without running
    /// anything.
    PreflightContrib { op: usize, rank: usize },
    /// Run router, own experts and shared expert on the root.
    RunMoeRoot { op: usize },
    /// Copy the root's `k` expert ids and weights to every rank.
    BroadcastRoute { k: usize },
    /// Run the rank's own experts under the root's route.
    RunMoeContrib { op: usize, rank: usize },
    /// Let every rank's stream wait for all the others.
    Barrier { before: Buffers },
    /// Sum `count` elements of the buffers across the ranks, in place.
    AllReduce { over: Buffers, count: usize },
}

impl Step {
    /// What it means when a thing that a step requires is not there.
    pub open spec fn absence(self) -> Option<EpError> {
        match self {
            Step::RequireStream { rank } => Some(EpError::NoActiveStream { rank }),
            Step::RequireAttentionPartial { rank } => Some(EpError::AttentionPartialMissing),
            Step::RequireRouteView { rank } => Some(EpError::RouteViewLost { rank }),
            _ => None,
        }
    }

    /// What it means when a thing that a step requires is not there.
    pub(crate) fn absence_error(&self) -> (error: Option<EpError>)
        ensures
            error == self.absence(),
    {
        match *self {
            Step::RequireStream { rank } => Some(EpError::NoActiveStream { rank }),
            Step::RequireAttentionPartial { rank } => Some(EpError::AttentionPartialMissing),
            Step::RequireRouteView { rank } => Some(EpError::RouteViewLost { rank }),
            _ => None,
        }
    }

    /// The rank whose device the step puts work on, where it is one rank's.
    pub open spec fn works_on(self) -> Option<usize> {
        match self {
            Step::CreateStream { rank } => Some(rank),
            Step::Dispatch { op, rank } => Some(rank),
            Step::RunAttend { op, rank } => Some(rank),
            Step::FinishAttend { rank } => Some(rank),
            Step::FinishAttendPeerHc3 { rank } => Some(rank),
            Step::FinishAttendPeerHc4 { rank } => Some(rank),
            Step::ZeroPartial { rank, count } => Some(rank),
            Step::RunMoe { op, rank, skip_shared } => Some(rank),
            Step::FinishMoePeerHc3 { rank } => Some(rank),
            Step::FinishMoePeerHc4 { rank } => Some(rank),
            Step::AddIntoResidual { rank } => Some(rank),
            Step::RunMoeRoot { op } => Some(0),
            Step::RunMoeContrib { op, rank } => Some(rank),
            _ => None,
        }
    }
}

/// A step that several ranks take in turn.
#[derive(Debug, Clone, Copy, PartialEq, Eq, Structural)]
pub enum Task {
    Dispatch,
    RunAttend,
    FinishAttend,
    FinishAttendPeerHc3,
    FinishAttendPeerHc4,
    RunMoe,
    FinishMoePeerHc3,
    FinishMoePeerHc4,
    AddIntoResidual,
    RunMoeContrib,
    RequireAttentionPartial,
    RequireRouteView,
    PreflightContrib,
}

impl Task {
    /// The step that `rank` takes for op `op`. Only rank 0 runs the shared
    /// expert.
    pub open spec fn step(self, op: usize, rank: usize) -> Step {
        match self {
            Task::Dispatch => Step::Dispatch { op, rank },
            Task::RunAttend => Step::RunAttend { op, rank },
            Task::FinishAttend => Step::FinishAttend { rank },
            Task::FinishAttendPeerHc3 => Step::FinishAttendPeerHc3 { rank },
            Task::FinishAttendPeerHc4 => Step::FinishAttendPeerHc4 { rank },
            Task::RunMoe => Step::RunMoe { op, rank, skip_shared: rank != 0 },
            Task::FinishMoePeerHc3 => Step::FinishMoePeerHc3 { rank },
            Task::FinishMoePeerHc4 => Step::FinishMoePeerHc4 { rank },
            Task::AddIntoResidual => Step::AddIntoResidual { rank },
            Task::RunMoeContrib => Step::RunMoeContrib { op, rank },
            Task::RequireAttentionPartial => Step::RequireAttentionPartial { rank },
            Task::RequireRouteView => Step::RequireRouteView { rank },
            Task::PreflightContrib => Step::PreflightContrib { op, rank },
        }
    }

    fn step_of(&self, op: usize, rank: usize) -> (step: Step)
        ensures
            step == self.step(op, rank),
    {
        match *self {
            Task::Dispatch => Step::Dispatch { op, rank },
            Task::RunAttend => Step::RunAttend { op, rank },
            Task::FinishAttend => Step::FinishAttend { rank },
            Task::FinishAttendPeerHc3 => Step::FinishAttendPeerHc3 { rank },
            Task::FinishAttendPeerHc4 => Step::FinishAttendPeerHc4 { rank },
            Task::RunMoe => Step::RunMoe { op, rank, skip_shared: rank != 0 },
            Task::FinishMoePeerHc3 => Step::FinishMoePeerHc3 { rank },
            Task::FinishMoePeerHc4 => Step::FinishMoePeerHc4 { rank },
            Task::AddIntoResidual => Step::AddIntoResidual { rank },
            Task::RunMoeContrib => Step::RunMoeContrib { op, rank },
            Task::RequireAttentionPartial => Step::RequireAttentionPartial { rank },
            Task::RequireRouteView => Step::RequireRouteView { rank },
            Task::PreflightContrib => Step::PreflightContrib { op, rank },
        }
    }

    /// The ranks from `from` on take the step in turn.
    pub open spec fn by_ranks(self, op: usize, from: int, ranks: int) -> Seq<Step> {
        Seq::new((ranks - from) as nat, |i: int| self.step(op, (from + i) as usize))
    }

    /// The ranks from `from` on take the step in turn, each with its device
    /// bound first.
    pub open spec fn by_bound_ranks(self, op: usize, from: int, ranks: int) -> Seq<Step> {
        Seq::new(
            (2 * (ranks - from)) as nat,
            |i: int|
                if i % 2 == 0 {
                    Step::BindThread { rank: (from + i / 2) as usize }
                } else {
                    self.step(op, (from + i / 2) as usize)
                },
        )
    }

    /// Appends the step of each rank from `from` on.
    pub(crate) fn push_by_ranks(&self, steps: &mut Vec<Step>, op: usize, from: usize, ranks: usize)
        requires
            from <= ranks,
        ensures
            final(steps)@ == old(steps)@ + self.by_ranks(op, from as int, ranks as int),
    {
        let ghost before = steps@;
        let mut rank: usize = from;
        while rank < ranks
            invariant
                from <= rank <= ranks,
                steps@ == before + self.by_ranks(op, from as int, rank as int),
            decreases ranks - rank,
        {
            steps.push(self.step_of(op, rank));
            proof {
                assert(steps@ =~= before + self.by_ranks(op, from as int, rank + 1));
            }
            rank = rank + 1;
        }
    }

    /// Appends the step of each rank from `from` on, its device bound first.
    pub(crate) fn push_by_bound_ranks(
        &self,
        steps: &mut Vec<Step>,
        op: usize,
        from: usize,
        ranks: usize,
    )
        requires
            from <= ranks,
        ensures
            final(steps)@ == old(steps)@ + self.by_bound_ranks(op, from as int, ranks as int),
    {
        let ghost before = steps@;
        let mut rank: usize = from;
        while rank < ranks
            invariant
                from <= rank <= ranks,
                steps@ == before + self.by_bound_ranks(op, from as int, rank as int),
            decreases ranks - rank,
        {
            steps.push(Step::BindThread { rank });
            steps.push(self.step_of(op, rank));
            proof {
                assert(steps@ =~= before + self.by_bound_ranks(op, from as int, rank + 1));
            }
            rank = rank + 1;
        }
    }
}

/// Every rank zeroes its routed partial on its own stream.
pub open spec fn zero_partials(ranks: int, count: usize) -> Seq<Step> {
    Seq::new(
        (3 * ranks) as nat,
        |i: int|
            if i % 3 == 0 {
                Step::BindThread { rank: (i / 3) as usize }
            } else if i % 3 == 1 {
                Step::RequireStream { rank: (i / 3) as usize }
            } else {
                Step::ZeroPartial { rank: (i / 3) as usize, count }
            },
    )
}

/// Appends the zeroing of every rank's routed partial.
pub(crate) fn push_zero_partials(steps: &mut Vec<Step>, ranks: usize, count: usize)
    ensures
        final(steps)@ == old(steps)@ + zero_partials(ranks as int, count),
{
    let ghost before = steps@;
    let mut rank: usize = 0;
    while rank < ranks
        invariant
            rank <= ranks,
            steps@ == before + zero_partials(rank as int, count),
        decreases ranks - rank,
    {
        steps.push(Step::BindThread { rank });
        steps.push(Step::RequireStream { rank });
        steps.push(Step::ZeroPartial { rank, count });
        proof {
            assert(steps@ =~= before + zero_partials(rank + 1, count));
        }
        rank = rank + 1;
    }
}

/// The steps that give the first `ranks` ranks a stream each: every device is
/// bound, and a stream is created where there is none.
pub open spec fn stream_steps(active: Seq<bool>, ranks: int) -> Seq<Step>
    decreases ranks,
{
    if ranks <= 0 {
        Seq::empty()
    } else {
        let rank = (ranks - 1) as usize;
        let bound = stream_steps(active, ranks - 1).push(Step::BindThread { rank });
        if active[ranks - 1] {
            bound
        } else {
            bound.push(Step::CreateStream { rank })
        }
    }
}

/// Draws up the steps after which every rank owns an active stream, the stream
/// that the collectives and the rank's own work run on. `active[r]` says whether
/// rank `r` has one. A step that fails ends the list there.
pub fn ensure_rank_streams(active: &[bool]) -> (steps: Vec<Step>)
    ensures
        steps@ == stream_steps(active@, active.len() as int),
{
    let mut steps: Vec<Step> = Vec::new();
    let mut rank: usize = 0;
    while rank < active.len()
        invariant
            rank <= active.len(),
            steps@ == stream_steps(active@, rank as int),
        decreases active.len() - rank,
    {
        steps.push(Step::BindThread { rank });
        if !active[rank] {
            steps.push(Step::CreateStream { rank });
        }
        rank = rank + 1;
    }
    steps
}

/// Which ranks have a stream once `steps` have been performed.
pub open spec fn streams_after(active: Seq<bool>, steps: Seq<Step>) -> Seq<bool>
    decreases steps.len(),
{
    if steps.len() == 0 {
        active
    } else {
        let before = streams_after(active, steps.drop_last());
        match steps.last() {
            Step::CreateStream { rank } => before.update(rank as int, true),
            _ => before,
        }
    }
}

/// The first `ranks` ranks have a stream behind their steps; the others are as
/// they were.
proof fn lemma_streams_after(active: Seq<bool>, ranks: int)
    requires
        0 <= ranks <= active.len() <= usize::MAX,
    ensures
        streams_after(active, stream_steps(active, ranks)) == Seq::new(
            active.len(),
            |r: int| r < ranks || active[r],
        ),
    decreases ranks,
{
    let after = streams_after(active, stream_steps(active, ranks));
    if ranks > 0 {
        lemma_streams_after(active, ranks - 1);
        let rank = (ranks - 1) as usize;
        let earlier = stream_steps(active, ranks - 1);
        let bound = earlier.push(Step::BindThread { rank });
        assert(bound.drop_last() =~= earlier);
        assert(streams_after(active, bound) == streams_after(active, earlier));
        if !active[ranks - 1] {
            assert(bound.push(Step::CreateStream { rank }).drop_last() =~= bound);
        }
    }
    assert(after =~= Seq::new(active.len(), |r: int| r < ranks || active[r]));
}

/// A stream is created for a rank exactly where it has none.
proof fn lemma_created(active: Seq<bool>, ranks: int, r: usize)
    requires
        0 <= ranks <= active.len() <= usize::MAX,
    ensures
        stream_steps(active, ranks).contains(Step::CreateStream { rank: r }) <==> r < ranks
            && !active[r as int],
    decreases ranks,
{
    if ranks > 0 {
        lemma_created(active, ranks - 1, r);
        let earlier = stream_steps(active, ranks - 1);
        let all = stream_steps(active, ranks);
        let create = Step::CreateStream { rank: r };
        if all.contains(create) {
            let i = choose|i: int| 0 <= i < all.len() && all[i] == create;
            if i < earlier.len() {
                assert(earlier[i] == create);
            }
        }
        if r < ranks && !active[r as int] {
            if r < ranks - 1 {
                let i = choose|i: int| 0 <= i < earlier.len() && earlier[i] == create;
                assert(all[i] == create);
            } else {
                assert(all[all.len() - 1] == create);
            }
        }
    }
}

/// Every device is bound, rank by rank, and right behind it a stream is created
/// exactly where the rank has none; nothing else is done.
pub proof fn streams_are_created_rank_by_rank(active: Seq<bool>)
    requires
        active.len() <= usize::MAX,
    ensures
        ({
            let steps = stream_steps(active, active.len() as int);
            &&& forall|r: usize|
                #[trigger] steps.contains(Step::BindThread { rank: r }) <==> r < active.len()
            &&& forall|r: usize|
                #[trigger] steps.contains(Step::CreateStream { rank: r }) <==> r < active.len()
                    && !active[r as int]
            &&& forall|j: int|
                0 <= j < steps.len() ==> (#[trigger] steps[j]) is BindThread
                    || steps[j] is CreateStream
            &&& forall|j: int|
                0 <= j < steps.len() && (#[trigger] steps[j]) is CreateStream ==> j > 0 && steps[j
                    - 1] == (Step::BindThread { rank: steps[j]->CreateStream_rank })
            &&& forall|j: int, l: int|
                #![trigger steps[j], steps[l]]
                0 <= j < l < steps.len() && steps[j] is BindThread && steps[l] is BindThread
                    ==> steps[j]->BindThread_rank < steps[l]->BindThread_rank
        }),
{
    let ranks = active.len() as int;
    let steps = stream_steps(active, ranks);
    lemma_stream_order(active, ranks);
    assert forall|r: usize| #[trigger]
        steps.contains(Step::CreateStream { rank: r }) <==> r < active.len()
            && !active[r as int] by {
        lemma_created(active, ranks, r);
    }
    assert forall|r: usize| #[trigger]
        steps.contains(Step::BindThread { rank: r }) <==> r < active.len() by {
        lemma_bound(active, ranks, r);
    }
}

/// The first `ranks` ranks are bound in order, and streams created behind that.
proof fn lemma_stream_order(active: Seq<bool>, ranks: int)
    requires
        0 <= ranks <= active.len() <= usize::MAX,
    ensures
        ({
            let steps = stream_steps(active, ranks);
            &&& forall|j: int|
                0 <= j < steps.len() ==> (#[trigger] steps[j]) is BindThread
                    || steps[j] is CreateStream
            &&& forall|j: int|
                0 <= j < steps.len() && (#[trigger] steps[j]) is BindThread
                    ==> steps[j]->BindThread_rank < ranks
            &&& forall|j: int|
                0 <= j < steps.len() && (#[trigger] steps[j]) is CreateStream ==> j > 0 && steps[j
                    - 1] == (Step::BindThread { rank: steps[j]->CreateStream_rank })
            &&& forall|j: int, l: int|
                #![trigger steps[j], steps[l]]
                0 <= j < l < steps.len() && steps[j] is BindThread && steps[l] is BindThread
                    ==> steps[j]->BindThread_rank < steps[l]->BindThread_rank
        }),
    decreases ranks,
{
    if ranks > 0 {
        lemma_stream_order(active, ranks - 1);
        let earlier = stream_steps(active, ranks - 1);
        let steps = stream_steps(active, ranks);
        assert(forall|j: int| 0 <= j < earlier.len() ==> #[trigger] steps[j] == earlier[j]);
        assert forall|j: int|
            0 <= j < steps.len() && (#[trigger] steps[j]) is CreateStream implies j > 0 && steps[j
            - 1] == (Step::BindThread { rank: steps[j]->CreateStream_rank }) by {
            if j < earlier.len() {
                assert(steps[j] == earlier[j]);
                assert(steps[j - 1] == earlier[j - 1]);
            }
        }
    }
}

/// Exactly the first `ranks` ranks are bound.
proof fn lemma_bound(active: Seq<bool>, ranks: int, r: usize)
    requires
        0 <= ranks <= active.len() <= usize::MAX,
    ensures
        stream_steps(active, ranks).contains(Step::BindThread { rank: r }) <==> r < ranks,
    decreases ranks,
{
    if ranks > 0 {
        lemma_bound(active, ranks - 1, r);
        let earlier = stream_steps(active, ranks - 1);
        let all = stream_steps(active, ranks);
        let bind = Step::BindThread { rank: r };
        if all.contains(bind) {
            let i = choose|i: int| 0 <= i < all.len() && all[i] == bind;
            if i < earlier.len() {
                assert(earlier[i] == bind);
            }
        }
        if r < ranks {
            if r < ranks - 1 {
                let i = choose|i: int| 0 <= i < earlier.len() && earlier[i] == bind;
                assert(all[i] == bind);
            } else {
                assert(all[earlier.len() as int] == bind);
            }
        }
    }
}

/// A longer list of stream steps begins with the shorter one.
proof fn lemma_stream_steps_prefix(active: Seq<bool>, fewer: int, ranks: int)
    requires
        0 <= fewer <= ranks,
    ensures
        stream_steps(active, fewer).is_prefix_of(stream_steps(active, ranks)),
    decreases ranks,
{
    if fewer < ranks {
        lemma_stream_steps_prefix(active, fewer, ranks - 1);
    }
}

/// The step at `j` belongs to the rank it names: those before it are the steps
/// of the lower ranks, and then perhaps the binding of its own device.
proof fn lemma_stream_steps_before(active: Seq<bool>, ranks: int, j: int, rank: usize)
    requires
        0 <= ranks <= active.len() <= usize::MAX,
        0 <= j < stream_steps(active, ranks).len(),
        stream_steps(active, ranks)[j] == (Step::BindThread { rank }) || stream_steps(
            active,
            ranks,
        )[j] == (Step::CreateStream { rank }),
    ensures
        rank < ranks,
        stream_steps(active, ranks).take(j) == if stream_steps(active, ranks)[j] is BindThread {
            stream_steps(active, rank as int)
        } else {
            stream_steps(active, rank as int).push(Step::BindThread { rank })
        },
    decreases ranks,
{
    let all = stream_steps(active, ranks);
    let earlier = stream_steps(active, ranks - 1);
    lemma_stream_steps_prefix(active, ranks - 1, ranks);
    if j < earlier.len() {
        assert(earlier[j] == all[j]);
        lemma_stream_steps_before(active, ranks - 1, j, rank);
        assert(all.take(j) =~= earlier.take(j));
    } else if j == earlier.len() {
        assert(all.take(j) =~= earlier);
    } else {
        assert(all.take(j) =~= earlier.push(Step::BindThread { rank }));
    }
}

/// Stream set-up that ends at a failed step leaves a stream to every rank before
/// the one that failed, and all others as they were.
pub proof fn failed_set_up_keeps_earlier_streams(active: Seq<bool>, j: int, rank: usize)
    requires
        active.len() <= usize::MAX,
        0 <= j < stream_steps(active, active.len() as int).len(),
        stream_steps(active, active.len() as int)[j] == (Step::BindThread { rank })
            || stream_steps(active, active.len() as int)[j] == (Step::CreateStream { rank }),
    ensures
        rank < active.len(),
        streams_after(active, stream_steps(active, active.len() as int).take(j)) == Seq::new(
            active.len(),
            |r: int| r < rank || active[r],
        ),
{
    let lower = stream_steps(active, rank as int);
    lemma_stream_steps_before(active, active.len() as int, j, rank);
    lemma_streams_after(active, rank as int);
    assert(lower.push(Step::BindThread { rank }).drop_last() =~= lower);
}

/// Giving the ranks their streams is idempotent: afterwards every rank has one,
/// one was created exactly where there was none, and doing it again creates none.
pub proof fn rank_streams_are_idempotent(active: Seq<bool>)
    requires
        active.len() <= usize::MAX,
    ensures
        ({
            let ranks = active.len() as int;
            let steps = stream_steps(active, ranks);
            let after = streams_after(active, steps);
            &&& after.len() == active.len()
            &&& forall|r: int| 0 <= r < ranks ==> #[trigger] after[r]
            &&& forall|r: usize|
                r < ranks ==> (#[trigger] steps.contains(Step::CreateStream { rank: r })
                    <==> !active[r as int])
            &&& forall|r: usize|
                !(#[trigger] stream_steps(after, ranks).contains(Step::CreateStream { rank: r }))
        }),
{
    let ranks = active.len() as int;
    let after = streams_after(active, stream_steps(active, ranks));
    lemma_streams_after(active, ranks);
    assert forall|r: usize| r < ranks implies (#[trigger] stream_steps(active, ranks).contains(
        Step::CreateStream { rank: r },
    ) <==> !active[r as int]) by {
        lemma_created(active, ranks, r);
    }
    assert forall|r: usize| !(#[trigger] stream_steps(after, ranks).contains(
        Step::CreateStream { rank: r },
    )) by {
        lemma_created(after, ranks, r);
        if r < ranks {
            assert(after[r as int]);
        }
    }
}

} // verus!
