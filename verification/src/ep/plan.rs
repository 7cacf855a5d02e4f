//! How the ranks run one op of the layer program.

use crate::ep::route::{RouteView, ELEMENT_BYTES, MAX_EP_STACK_RANKS};
use crate::ep::script;
use crate::ep::script::{push_zero_partials, Buffers, Step, Task};
use vstd::prelude::*;

verus! {

/// The ops of a layer program, as far as the executor tells them apart.
#[derive(Debug, Clone, Copy, PartialEq, Eq, Structural)]
pub enum OpKind {
    Attend,
    Moe,
    /// Any other op: every rank runs it unchanged.
    Other,
}

/// How a rank's binding wants its MoE partial combined.
#[derive(Debug, Clone, Copy, PartialEq, Eq, Structural)]
pub enum CombineMode {
    /// The root routes for all ranks.
    RootRoutedPartial,
    /// Every rank routes for itself.
    RankPartial,
}

/// How partials end up in the residuals.
#[derive(Debug, Clone, Copy, PartialEq, Eq, Structural)]
pub enum Finish {
    /// Three ranks read each other's partials.
    PeerHc3,
    /// Four ranks read each other's partials.
    PeerHc4,
    /// The partials are summed across the ranks.
    AllReduce,
}

/// How partials end up in the residuals, as far as it has been decided.
#[derive(Debug, Clone, Copy, PartialEq, Eq, Structural)]
pub enum Ending {
    /// It is open whether the devices can read each other's partials.
    DevicesPending,
    /// They can; it is open whether the bindings of three ranks support it.
    Hc3Pending,
    /// They can; it is open whether the bindings of four ranks support it.
    Hc4Pending,
    Decided(Finish),
}

/// All flags are set.
pub open spec fn all_set(flags: Seq<bool>) -> bool {
    forall|i: int| 0 <= i < flags.len() ==> #[trigger] flags[i]
}

/// No flag is set.
pub open spec fn none_set(flags: Seq<bool>) -> bool {
    forall|i: int| 0 <= i < flags.len() ==> !(#[trigger] flags[i])
}

/// Whether all flags are set.
pub(crate) fn check_all_set(flags: &[bool]) -> (all: bool)
    ensures
        all == all_set(flags@),
{
    let mut i: usize = 0;
    while i < flags.len()
        invariant
            i <= flags.len(),
            forall|j: int| 0 <= j < i ==> #[trigger] flags@[j],
        decreases flags.len() - i,
    {
        if !flags[i] {
            return false;
        }
        i = i + 1;
    }
    true
}

/// Whether no flag is set.
pub(crate) fn check_none_set(flags: &[bool]) -> (none: bool)
    ensures
        none == none_set(flags@),
{
    let mut i: usize = 0;
    while i < flags.len()
        invariant
            i <= flags.len(),
            forall|j: int| 0 <= j < i ==> !(#[trigger] flags@[j]),
        decreases flags.len() - i,
    {
        if flags[i] {
            return false;
        }
        i = i + 1;
    }
    true
}

/// The reports tell two ranks apart.
pub open spec fn told_apart<T>(reports: Seq<T>) -> bool {
    exists|i: int| 0 <= i < reports.len() && #[trigger] reports[i] != reports[0]
}

/// The reports of all ranks in order, or of so many that two are told apart.
pub open spec fn reported<T>(reports: Seq<T>, ranks: int) -> bool {
    reports.len() == ranks || reports.len() < ranks && told_apart(reports)
}

/// The flags of all ranks in order, or of so many that one is not set.
pub open spec fn flagged(flags: Seq<bool>, ranks: int) -> bool {
    flags.len() == ranks || flags.len() < ranks && !all_set(flags)
}

/// The devices can read each other's partials: with peer access, and all of
/// them a gfx1201.
pub open spec fn peers_open(peer_access: bool, gfx1201: Seq<bool>) -> bool {
    peer_access && all_set(gfx1201)
}

/// Whether the devices can read each other's partials.
pub(crate) fn check_peers_open(peer_access: bool, gfx1201: &[bool]) -> (open: bool)
    ensures
        open == peers_open(peer_access, gfx1201@),
{
    peer_access && check_all_set(gfx1201)
}

/// The three-peer path: three ranks whose devices read each other's partials,
/// all with bindings that support it.
pub open spec fn hc3_admitted(ranks: int, peers: bool, hc3: Seq<bool>) -> bool {
    ranks == 3 && peers && all_set(hc3)
}

/// The four-peer path: four ranks whose devices read each other's partials, all
/// with bindings that support it.
pub open spec fn hc4_admitted(ranks: int, peers: bool, hc4: Seq<bool>) -> bool {
    ranks == 4 && peers && all_set(hc4)
}

/// Whether the three-peer path is open.
pub fn tp_peer_hc3_admitted(ranks: usize, peers: bool, hc3: &[bool]) -> (admitted: bool)
    ensures
        admitted == hc3_admitted(ranks as int, peers, hc3@),
{
    ranks == 3 && peers && check_all_set(hc3)
}

/// Whether the four-peer path is open.
pub fn tp_peer_hc4_admitted(ranks: usize, peers: bool, hc4: &[bool]) -> (admitted: bool)
    ensures
        admitted == hc4_admitted(ranks as int, peers, hc4@),
{
    ranks == 4 && peers && check_all_set(hc4)
}

/// A peer path where one is open, the sum otherwise.
pub open spec fn finish_by(ranks: int, peers: bool, hc3: Seq<bool>, hc4: Seq<bool>) -> Finish {
    if hc3_admitted(ranks, peers, hc3) {
        Finish::PeerHc3
    } else if hc4_admitted(ranks, peers, hc4) {
        Finish::PeerHc4
    } else {
        Finish::AllReduce
    }
}

impl Ending {
    /// The peer paths are for three or four ranks; other meshes sum.
    pub open spec fn opening(ranks: int) -> Ending {
        if ranks == 3 || ranks == 4 {
            Ending::DevicesPending
        } else {
            Ending::Decided(Finish::AllReduce)
        }
    }

    /// What has to be known to decide.
    pub open spec fn question(self) -> Option<Question> {
        match self {
            Ending::DevicesPending => Some(Question::PeerDevices),
            Ending::Hc3Pending => Some(Question::PeerHc3),
            Ending::Hc4Pending => Some(Question::PeerHc4),
            Ending::Decided(_) => None,
        }
    }

    /// The devices are known: on to the bindings of the path for this many
    /// ranks, if the devices allow it.
    pub open spec fn with_devices(ranks: int, peers: bool) -> Ending {
        if peers && ranks == 3 {
            Ending::Hc3Pending
        } else if peers && ranks == 4 {
            Ending::Hc4Pending
        } else {
            Ending::Decided(Finish::AllReduce)
        }
    }

    /// The bindings of the path at hand are known.
    pub open spec fn with_bindings(self, supported: Seq<bool>) -> Ending {
        Ending::Decided(
            if !all_set(supported) {
                Finish::AllReduce
            } else if self is Hc3Pending {
                Finish::PeerHc3
            } else {
                Finish::PeerHc4
            },
        )
    }

    /// The endings that a mesh of this size can have.
    pub open spec fn suits(self, ranks: int) -> bool {
        match self {
            Ending::DevicesPending => ranks == 3 || ranks == 4,
            Ending::Hc3Pending => ranks == 3,
            Ending::Hc4Pending => ranks == 4,
            Ending::Decided(finish) => {
                &&& finish == Finish::PeerHc3 ==> ranks == 3
                &&& finish == Finish::PeerHc4 ==> ranks == 4
            },
        }
    }

    /// The ending that an op starts with.
    pub(crate) fn open_ending(ranks: usize) -> (ending: Ending)
        ensures
            ending == Ending::opening(ranks as int),
    {
        if ranks == 3 || ranks == 4 {
            Ending::DevicesPending
        } else {
            Ending::Decided(Finish::AllReduce)
        }
    }

    /// Goes on from what the devices report.
    pub(crate) fn take_devices(ranks: usize, peers: bool) -> (ending: Ending)
        ensures
            ending == Ending::with_devices(ranks as int, peers),
    {
        if peers && ranks == 3 {
            Ending::Hc3Pending
        } else if peers && ranks == 4 {
            Ending::Hc4Pending
        } else {
            Ending::Decided(Finish::AllReduce)
        }
    }

    /// Decides on what the bindings report.
    pub(crate) fn take_bindings(&self, ranks: usize, supported: &[bool]) -> (finish: Finish)
        requires
            self is Hc3Pending && ranks == 3 || self is Hc4Pending && ranks == 4,
        ensures
            Ending::Decided(finish) == self.with_bindings(supported@),
    {
        if tp_peer_hc3_admitted(ranks, true, supported) {
            Finish::PeerHc3
        } else if tp_peer_hc4_admitted(ranks, true, supported) {
            Finish::PeerHc4
        } else {
            Finish::AllReduce
        }
    }

    /// What has to be known to decide.
    pub(crate) fn open_question(&self) -> (question: Option<Question>)
        ensures
            question == self.question(),
    {
        match *self {
            Ending::DevicesPending => Some(Question::PeerDevices),
            Ending::Hc3Pending => Some(Question::PeerHc3),
            Ending::Hc4Pending => Some(Question::PeerHc4),
            Ending::Decided(_) => None,
        }
    }
}

/// What the peers report, asked for in turn, decides as all of it would at once.
/// Only where the devices allow a path are bindings asked, and only about that
/// path.
pub proof fn peer_paths_are_decided_in_turn(
    ranks: int,
    peer_access: bool,
    gfx1201: Seq<bool>,
    hc3: Seq<bool>,
    hc4: Seq<bool>,
)
    ensures
        ({
            let peers = peers_open(peer_access, gfx1201);
            let finish = finish_by(ranks, peers, hc3, hc4);
            let opening = Ending::opening(ranks);
            let known = Ending::with_devices(ranks, peers);
            &&& !(opening is DevicesPending) ==> opening == Ending::Decided(finish)
            &&& known.question() is None ==> known == Ending::Decided(finish)
            &&& known.question() == Some(Question::PeerHc3) <==> ranks == 3 && peers
            &&& known.question() == Some(Question::PeerHc4) <==> ranks == 4 && peers
            &&& known is Hc3Pending ==> known.with_bindings(hc3) == Ending::Decided(finish)
            &&& known is Hc4Pending ==> known.with_bindings(hc4) == Ending::Decided(finish)
        }),
{
}

/// What an op's steps are, as far as it has been decided.
#[derive(Debug, Clone, Copy, PartialEq, Eq, Structural)]
pub enum Plan {
    /// The program is at its end.
    Ended,
    /// An `Attend` op: it is open whether it runs tensor-parallel.
    AttendPending,
    /// A `Moe` op: the combine is open.
    MoePending,
    /// A root-routed `Moe` op: it is open whether the partials are large enough.
    PartialSizesPending,
    /// A root-routed `Moe` op: it is open whether `rank` and those behind it
    /// agree with the root, whose view is known once `rank` is another.
    RouteViewPending { root: Option<RouteView>, rank: usize },
    /// Every rank runs the op on full weights.
    Replicated,
    /// Every rank runs its attention shard; then the partials are combined.
    AttentionTp { ending: Ending },
    /// Every rank routes for itself and runs its own experts; then the partials
    /// are combined.
    RankPartial { ending: Ending },
    /// The root routes; the others run their own experts under its route, once
    /// `k` is known; then the partials are summed.
    RootRouted { k: Option<usize> },
}

/// What has to be known to go on.
#[derive(Debug, Clone, Copy, PartialEq, Eq, Structural)]
pub enum Question {
    /// Which ranks run attention tensor-parallel?
    AttentionTp,
    /// Which combine does each rank want?
    CombineModes,
    /// How large are the partials?
    PartialSizes,
    /// What is the rank bound to?
    RouteView { rank: usize },
    /// Is there peer access, and which devices are a gfx1201?
    PeerDevices,
    /// Which bindings support the three-peer path?
    PeerHc3,
    /// Which bindings support the four-peer path?
    PeerHc4,
    /// How many experts per token does the root's route view hold now?
    RootTopK,
}

/// How an attention op ends.
pub open spec fn attend_finish(finish: Finish, op: usize, ranks: int, residual_dim: usize) -> Seq<
    Step,
> {
    let present = Task::RequireAttentionPartial.by_ranks(op, 0, ranks);
    match finish {
        Finish::PeerHc3 => present.push(Step::Barrier { before: Buffers::Attention })
            + Task::FinishAttendPeerHc3.by_bound_ranks(op, 0, ranks),
        Finish::PeerHc4 => present.push(Step::Barrier { before: Buffers::Attention })
            + Task::FinishAttendPeerHc4.by_bound_ranks(op, 0, ranks),
        Finish::AllReduce => present.push(
            Step::AllReduce { over: Buffers::Attention, count: residual_dim },
        ) + Task::FinishAttend.by_bound_ranks(op, 0, ranks),
    }
}

/// How a MoE op ends.
pub open spec fn moe_finish(finish: Finish, op: usize, ranks: int, residual_dim: usize) -> Seq<
    Step,
> {
    match finish {
        Finish::PeerHc3 => seq![Step::Barrier { before: Buffers::Routed }]
            + Task::FinishMoePeerHc3.by_bound_ranks(op, 0, ranks),
        Finish::PeerHc4 => seq![Step::Barrier { before: Buffers::Routed }]
            + Task::FinishMoePeerHc4.by_bound_ranks(op, 0, ranks),
        Finish::AllReduce => seq![
            Step::AllReduce { over: Buffers::Routed, count: residual_dim },
        ] + Task::AddIntoResidual.by_bound_ranks(op, 0, ranks),
    }
}

/// Attention shards, rank by rank.
pub open spec fn attend_shards(op: usize, ranks: int) -> Seq<Step> {
    Task::RunAttend.by_bound_ranks(op, 0, ranks)
}

/// All partials zeroed, then every rank's own experts.
pub open spec fn rank_partials(op: usize, ranks: int, residual_dim: usize) -> Seq<Step> {
    script::zero_partials(ranks, residual_dim)
        + Task::RunMoe.by_bound_ranks(op, 0, ranks)
}

/// All ranks validated, root first.
pub open spec fn preflight(op: usize, ranks: int) -> Seq<Step> {
    seq![Step::PreflightRoot { op }] + Task::PreflightContrib.by_ranks(op, 1, ranks)
}

/// The root's part: validation, all partials zeroed, the root's run, and a look
/// at the route views of the others.
pub open spec fn root_part(op: usize, ranks: int, residual_dim: usize) -> Seq<Step> {
    preflight(op, ranks) + script::zero_partials(ranks, residual_dim)
        + seq![Step::BindThread { rank: 0 }, Step::RunMoeRoot { op }]
        + Task::RequireRouteView.by_ranks(op, 1, ranks)
}

/// What follows the root's part: its route copied to all, the others' own
/// experts, the sum, and its addition into every residual.
pub open spec fn contributions(op: usize, ranks: int, residual_dim: usize, k: usize) -> Seq<Step> {
    seq![Step::BroadcastRoute { k }] + Task::RunMoeContrib.by_bound_ranks(op, 1, ranks) + seq![
        Step::AllReduce { over: Buffers::Routed, count: residual_dim },
    ] + Task::AddIntoResidual.by_bound_ranks(op, 0, ranks)
}

impl Plan {
    /// The plan that an op starts with.
    pub open spec fn opening(kind: OpKind) -> Plan {
        match kind {
            OpKind::Attend => Plan::AttendPending,
            OpKind::Moe => Plan::MoePending,
            OpKind::Other => Plan::Replicated,
        }
    }

    /// The plan that op `op` of `program` starts with.
    pub open spec fn at(program: Seq<OpKind>, op: int) -> Plan {
        if op < program.len() {
            Plan::opening(program[op])
        } else {
            Plan::Ended
        }
    }

    /// What has to be known once the plan's steps are performed; nothing, where
    /// the op is then done.
    pub open spec fn question(self) -> Option<Question> {
        match self {
            Plan::Ended => None,
            Plan::AttendPending => Some(Question::AttentionTp),
            Plan::MoePending => Some(Question::CombineModes),
            Plan::PartialSizesPending => Some(Question::PartialSizes),
            Plan::RouteViewPending { root, rank } => Some(Question::RouteView { rank }),
            Plan::Replicated => None,
            Plan::AttentionTp { ending } => ending.question(),
            Plan::RankPartial { ending } => ending.question(),
            Plan::RootRouted { k } => if k is None {
                Some(Question::RootTopK)
            } else {
                None
            },
        }
    }

    /// The steps decided on so far for op `op`.
    pub open spec fn script(self, op: usize, ranks: int, residual_dim: usize) -> Seq<Step> {
        match self {
            Plan::Replicated => Task::Dispatch.by_bound_ranks(op, 0, ranks),
            Plan::AttentionTp { ending } => match ending {
                Ending::Decided(f) => attend_shards(op, ranks) + attend_finish(
                    f,
                    op,
                    ranks,
                    residual_dim,
                ),
                _ => attend_shards(op, ranks),
            },
            Plan::RankPartial { ending } => match ending {
                Ending::Decided(f) => rank_partials(op, ranks, residual_dim) + moe_finish(
                    f,
                    op,
                    ranks,
                    residual_dim,
                ),
                _ => rank_partials(op, ranks, residual_dim),
            },
            Plan::RootRouted { k } => match k {
                None => root_part(op, ranks, residual_dim),
                Some(k) => root_part(op, ranks, residual_dim) + contributions(
                    op,
                    ranks,
                    residual_dim,
                    k,
                ),
            },
            _ => Seq::empty(),
        }
    }

    /// The plans that an op of this kind can be on, in a mesh of this size.
    pub open spec fn suits(self, kind: OpKind, ranks: int, residual_dim: usize) -> bool {
        match self {
            Plan::Ended => false,
            Plan::AttendPending => kind == OpKind::Attend,
            Plan::MoePending => kind == OpKind::Moe,
            Plan::PartialSizesPending => {
                &&& kind == OpKind::Moe
                &&& ranks <= MAX_EP_STACK_RANKS
                &&& residual_dim * ELEMENT_BYTES <= usize::MAX
            },
            Plan::RouteViewPending { root, rank } => {
                &&& kind == OpKind::Moe
                &&& ranks <= MAX_EP_STACK_RANKS
                &&& residual_dim * ELEMENT_BYTES <= usize::MAX
                &&& rank < ranks
                &&& root is None <==> rank == 0
            },
            Plan::Replicated => kind != OpKind::Moe,
            Plan::AttentionTp { ending } => kind == OpKind::Attend && ending.suits(ranks),
            Plan::RankPartial { ending } => kind == OpKind::Moe && ending.suits(ranks),
            Plan::RootRouted { k } => {
                &&& kind == OpKind::Moe
                &&& ranks <= MAX_EP_STACK_RANKS
                &&& residual_dim * ELEMENT_BYTES <= usize::MAX
            },
        }
    }
}

/// Appends the end of an attention op.
pub(crate) fn push_attend_finish(
    steps: &mut Vec<Step>,
    finish: Finish,
    op: usize,
    ranks: usize,
    residual_dim: usize,
)
    ensures
        final(steps)@ == old(steps)@ + attend_finish(finish, op, ranks as int, residual_dim),
{
    let ghost before = steps@;
    Task::RequireAttentionPartial.push_by_ranks(steps, op, 0, ranks);
    match finish {
        Finish::PeerHc3 => {
            steps.push(Step::Barrier { before: Buffers::Attention });
            Task::FinishAttendPeerHc3.push_by_bound_ranks(steps, op, 0, ranks);
        },
        Finish::PeerHc4 => {
            steps.push(Step::Barrier { before: Buffers::Attention });
            Task::FinishAttendPeerHc4.push_by_bound_ranks(steps, op, 0, ranks);
        },
        Finish::AllReduce => {
            steps.push(Step::AllReduce { over: Buffers::Attention, count: residual_dim });
            Task::FinishAttend.push_by_bound_ranks(steps, op, 0, ranks);
        },
    }
    proof {
        assert(steps@ =~= before + attend_finish(finish, op, ranks as int, residual_dim));
    }
}

/// Appends the end of a MoE op.
pub(crate) fn push_moe_finish(
    steps: &mut Vec<Step>,
    finish: Finish,
    op: usize,
    ranks: usize,
    residual_dim: usize,
)
    ensures
        final(steps)@ == old(steps)@ + moe_finish(finish, op, ranks as int, residual_dim),
{
    let ghost before = steps@;
    match finish {
        Finish::PeerHc3 => {
            steps.push(Step::Barrier { before: Buffers::Routed });
            Task::FinishMoePeerHc3.push_by_bound_ranks(steps, op, 0, ranks);
        },
        Finish::PeerHc4 => {
            steps.push(Step::Barrier { before: Buffers::Routed });
            Task::FinishMoePeerHc4.push_by_bound_ranks(steps, op, 0, ranks);
        },
        Finish::AllReduce => {
            steps.push(Step::AllReduce { over: Buffers::Routed, count: residual_dim });
            Task::AddIntoResidual.push_by_bound_ranks(steps, op, 0, ranks);
        },
    }
    proof {
        assert(steps@ =~= before + moe_finish(finish, op, ranks as int, residual_dim));
    }
}

/// Appends the ranks' own routing and experts.
pub(crate) fn push_rank_partials(
    steps: &mut Vec<Step>,
    op: usize,
    ranks: usize,
    residual_dim: usize,
)
    ensures
        final(steps)@ == old(steps)@ + rank_partials(op, ranks as int, residual_dim),
{
    let ghost before = steps@;
    push_zero_partials(steps, ranks, residual_dim);
    Task::RunMoe.push_by_bound_ranks(steps, op, 0, ranks);
    proof {
        assert(steps@ =~= before + rank_partials(op, ranks as int, residual_dim));
    }
}

/// Appends the root's part.
pub(crate) fn push_root_part(steps: &mut Vec<Step>, op: usize, ranks: usize, residual_dim: usize)
    requires
        ranks > 0,
    ensures
        final(steps)@ == old(steps)@ + root_part(op, ranks as int, residual_dim),
{
    let ghost before = steps@;
    steps.push(Step::PreflightRoot { op });
    Task::PreflightContrib.push_by_ranks(steps, op, 1, ranks);
    push_zero_partials(steps, ranks, residual_dim);
    steps.push(Step::BindThread { rank: 0 });
    steps.push(Step::RunMoeRoot { op });
    Task::RequireRouteView.push_by_ranks(steps, op, 1, ranks);
    proof {
        assert(steps@ =~= before + root_part(op, ranks as int, residual_dim));
    }
}

/// Appends what follows the root's part.
pub(crate) fn push_contributions(
    steps: &mut Vec<Step>,
    op: usize,
    ranks: usize,
    residual_dim: usize,
    k: usize,
)
    requires
        ranks > 0,
    ensures
        final(steps)@ == old(steps)@ + contributions(op, ranks as int, residual_dim, k),
{
    let ghost before = steps@;
    steps.push(Step::BroadcastRoute { k });
    Task::RunMoeContrib.push_by_bound_ranks(steps, op, 1, ranks);
    steps.push(Step::AllReduce { over: Buffers::Routed, count: residual_dim });
    Task::AddIntoResidual.push_by_bound_ranks(steps, op, 0, ranks);
    proof {
        assert(steps@ =~= before + contributions(op, ranks as int, residual_dim, k));
    }
}

impl Plan {
    /// The plan that op `op` starts with, and its steps.
    pub(crate) fn open_op(
        program: &Vec<OpKind>,
        op: usize,
        ranks: usize,
        residual_dim: usize,
    ) -> (opened: (Plan, Vec<Step>))
        ensures
            opened.0 == Plan::at(program@, op as int),
            opened.1@ == opened.0.script(op, ranks as int, residual_dim),
    {
        let mut steps: Vec<Step> = Vec::new();
        if op < program.len() {
            match program[op] {
                OpKind::Attend => (Plan::AttendPending, steps),
                OpKind::Moe => (Plan::MoePending, steps),
                OpKind::Other => {
                    Task::Dispatch.push_by_bound_ranks(&mut steps, op, 0, ranks);
                    proof {
                        assert(steps@ =~= Plan::Replicated.script(op, ranks as int, residual_dim));
                    }
                    (Plan::Replicated, steps)
                },
            }
        } else {
            (Plan::Ended, steps)
        }
    }

    /// What has to be known once the plan's steps are performed.
    pub(crate) fn open_question(&self) -> (question: Option<Question>)
        ensures
            question == self.question(),
    {
        match *self {
            Plan::Ended => None,
            Plan::AttendPending => Some(Question::AttentionTp),
            Plan::MoePending => Some(Question::CombineModes),
            Plan::PartialSizesPending => Some(Question::PartialSizes),
            Plan::RouteViewPending { root: _, rank } => Some(Question::RouteView { rank }),
            Plan::Replicated => None,
            Plan::AttentionTp { ending } => ending.open_question(),
            Plan::RankPartial { ending } => ending.open_question(),
            Plan::RootRouted { k } => if k.is_none() {
                Some(Question::RootTopK)
            } else {
                None
            },
        }
    }
}

} // verus!
