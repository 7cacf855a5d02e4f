//! What a run does with each thing that it is told, and what it asks for next.

use crate::ep::error::EpError;
use crate::ep::plan;
use crate::ep::plan::{CombineMode, Ending, Finish, OpKind, Plan, Question};
use crate::ep::route;
use crate::ep::route::RouteView;
use crate::ep::run::{Outcome, Request, RunState, Stop};
use crate::ep::script::Step;
use vstd::prelude::*;

verus! {

/// A run starts with its mesh, its width and its program, and with no step done.
/// With ranks it starts at the first op of the program. An op other than attention
/// and MoE is replicated; of the two it is open how they run. Behind the last op
/// the program is at its end.
pub proof fn runs_start_at_the_first_op<E>(
    ranks: usize,
    residual_dim: usize,
    program: Seq<OpKind>,
)
    ensures
        ({
            let state = RunState::<E>::start(ranks, residual_dim, program);
            &&& state.ranks == ranks
            &&& state.residual_dim == residual_dim
            &&& state.program == program
            &&& state.at == 0
            &&& state.stop is None
            &&& ranks > 0 ==> {
                &&& state.past.len() == 0
                &&& program.len() == 0 ==> state.plan == Plan::Ended
                &&& program.len() > 0 && program[0] == OpKind::Attend ==> state.plan
                    == Plan::AttendPending
                &&& program.len() > 0 && program[0] == OpKind::Moe ==> state.plan
                    == Plan::MoePending
                &&& program.len() > 0 && program[0] == OpKind::Other ==> state.plan
                    == Plan::Replicated
            }
        }),
{
}

/// A run asks for the next step of the plan at hand; behind the last step for
/// what the plan leaves open; and for nothing more once it has stopped or its
/// program is at its end.
pub proof fn runs_ask_for_what_comes_next<E>(state: RunState<E>)
    requires
        0 <= state.at,
        state.past.len() <= usize::MAX,
    ensures
        ({
            let steps = state.plan.script(
                state.past.len() as usize,
                state.ranks as int,
                state.residual_dim,
            );
            &&& state.stop is Some ==> state.request() == Request::Stopped
            &&& state.stop is None && state.at < steps.len() ==> state.request()
                == Request::Perform(steps[state.at])
            &&& state.stop is None && state.at >= steps.len() ==> state.request() == match state.plan {
                Plan::Ended => Request::Complete,
                Plan::AttendPending => Request::Answer(Question::AttentionTp),
                Plan::MoePending => Request::Answer(Question::CombineModes),
                Plan::PartialSizesPending => Request::Answer(Question::PartialSizes),
                Plan::RouteViewPending { root, rank } => Request::Answer(
                    Question::RouteView { rank },
                ),
                Plan::Replicated => Request::Complete,
                Plan::AttentionTp { ending: Ending::DevicesPending } => Request::Answer(
                    Question::PeerDevices,
                ),
                Plan::AttentionTp { ending: Ending::Hc3Pending } => Request::Answer(
                    Question::PeerHc3,
                ),
                Plan::AttentionTp { ending: Ending::Hc4Pending } => Request::Answer(
                    Question::PeerHc4,
                ),
                Plan::RankPartial { ending: Ending::DevicesPending } => Request::Answer(
                    Question::PeerDevices,
                ),
                Plan::RankPartial { ending: Ending::Hc3Pending } => Request::Answer(
                    Question::PeerHc3,
                ),
                Plan::RankPartial { ending: Ending::Hc4Pending } => Request::Answer(
                    Question::PeerHc4,
                ),
                Plan::RootRouted { k: None } => Request::Answer(Question::RootTopK),
                _ => Request::Complete,
            }
        }),
{
}

/// A step that is done leads on to the next one. Behind the last step of a plan
/// that leaves nothing open the op counts among the past ones, under its plan,
/// and the next op of the program begins.
pub proof fn done_steps_lead_on<E>(state: RunState<E>)
    requires
        state.sound(),
        state.request() is Perform,
    ensures
        ({
            let steps = state.plan.script(
                state.past.len() as usize,
                state.ranks as int,
                state.residual_dim,
            );
            let after = state.reported(Outcome::Done);
            let next = state.past.len() as int + 1;
            let settled = state.plan == Plan::Replicated || (state.plan matches Plan::AttentionTp {
                ending,
            } && ending is Decided) || (state.plan matches Plan::RankPartial { ending }
                && ending is Decided) || (state.plan matches Plan::RootRouted { k } && k is Some);
            &&& state.at + 1 < steps.len() || !settled ==> after == (RunState {
                at: state.at + 1,
                ..state
            })
            &&& state.at + 1 == steps.len() && settled ==> {
                &&& after.past == state.past.push(state.plan)
                &&& after.at == 0
                &&& after.stop is None
                &&& after.ranks == state.ranks
                &&& after.residual_dim == state.residual_dim
                &&& after.program == state.program
                &&& next >= state.program.len() ==> after.plan == Plan::Ended
                &&& next < state.program.len() && state.program[next] == OpKind::Attend
                    ==> after.plan == Plan::AttendPending
                &&& next < state.program.len() && state.program[next] == OpKind::Moe ==> after.plan
                    == Plan::MoePending
                &&& next < state.program.len() && state.program[next] == OpKind::Other
                    ==> after.plan == Plan::Replicated
            }
        }),
{
}

/// A step that fails stops the run with its error, and one whose requirement is
/// missing with the refusal that names it; all else stays as it was.
pub proof fn undone_steps_stop_the_run<E>(state: RunState<E>, error: E)
    requires
        state.sound(),
        state.request() is Perform,
    ensures
        ({
            let failed = state.reported(Outcome::Failed(error));
            let missing = state.reported(Outcome::Missing);
            let refusal = match state.request()->Perform_0 {
                Step::RequireStream { rank } => Some(EpError::NoActiveStream { rank }),
                Step::RequireAttentionPartial { rank } => Some(EpError::AttentionPartialMissing),
                Step::RequireRouteView { rank } => Some(EpError::RouteViewLost { rank }),
                _ => None,
            };
            &&& failed == (RunState { stop: Some(Stop::Failed(error)), ..state })
            &&& state.request()->Perform_0.absence() == refusal
            &&& refusal is Some ==> missing == (RunState {
                stop: Some(Stop::Refused(refusal->0)),
                ..state
            })
        }),
{
}

/// An attention op is replicated where no rank asks for tensor parallelism. Where
/// every rank does, and there is one, it runs tensor-parallel, for any number of
/// ranks: with three or four it is open whether the peers exchange partials, with
/// any other number they are summed. Where some do and some do not, the run is
/// refused. Nothing else changes.
pub proof fn attention_runs_as_every_rank_asks<E>(state: RunState<E>, enabled: Seq<bool>)
    ensures
        (forall|i: int| 0 <= i < enabled.len() ==> !(#[trigger] enabled[i])) ==> state.attention_tp(
            enabled,
        ) == (RunState { plan: Plan::Replicated, ..state }),
        enabled.len() > 0 && (forall|i: int| 0 <= i < enabled.len() ==> #[trigger] enabled[i])
            ==> state.attention_tp(enabled) == (RunState {
            plan: Plan::AttentionTp {
                ending: if state.ranks == 3 || state.ranks == 4 {
                    Ending::DevicesPending
                } else {
                    Ending::Decided(Finish::AllReduce)
                },
            },
            ..state
        }),
        forall|i: int, j: int|
            0 <= i < enabled.len() && 0 <= j < enabled.len() && #[trigger] enabled[i]
                && !(#[trigger] enabled[j]) ==> state.attention_tp(enabled) == (RunState {
                stop: Some(Stop::Refused(EpError::MixedAttentionTp)),
                ..state
            }),
        state.plan == Plan::AttendPending && state.stop is None ==> (state.attention_tp(
            enabled,
        ).plan == Plan::Replicated <==> forall|i: int|
            0 <= i < enabled.len() ==> !(#[trigger] enabled[i])),
{
    if enabled.len() > 0 && plan::none_set(enabled) {
        assert(!enabled[0]);
    }
}

/// Where every rank wants the root to route, the run goes on to the sizes of the
/// partials, unless there are more than 64 ranks or the bytes of a partial, four
/// to an element, do not fit a machine word: then it is refused. Where every rank
/// wants to route for itself, it goes on with that: with three or four ranks it is
/// open whether the peers exchange partials, with any other number they are
/// summed. Where the ranks differ, the run is refused. Nothing else changes.
pub proof fn combines_are_as_every_rank_wants<E>(state: RunState<E>, modes: Seq<CombineMode>)
    ensures
        (forall|i: int|
            0 <= i < modes.len() ==> #[trigger] modes[i] == CombineMode::RootRoutedPartial) ==> {
            let after = state.combine_modes(modes);
            &&& state.ranks > 64 ==> after == (RunState {
                stop: Some(Stop::Refused(EpError::TooManyRanks { ranks: state.ranks })),
                ..state
            })
            &&& state.ranks <= 64 && state.residual_dim * 4 > usize::MAX ==> after == (RunState {
                stop: Some(Stop::Refused(EpError::PartialBytesOverflow)),
                ..state
            })
            &&& state.ranks <= 64 && state.residual_dim * 4 <= usize::MAX ==> after == (RunState {
                plan: Plan::PartialSizesPending,
                ..state
            })
        },
        modes.len() > 0 && (forall|i: int|
            0 <= i < modes.len() ==> #[trigger] modes[i] == CombineMode::RankPartial)
            ==> state.combine_modes(modes) == (RunState {
            plan: Plan::RankPartial {
                ending: if state.ranks == 3 || state.ranks == 4 {
                    Ending::DevicesPending
                } else {
                    Ending::Decided(Finish::AllReduce)
                },
            },
            ..state
        }),
        forall|i: int, j: int|
            0 <= i < modes.len() && 0 <= j < modes.len() && #[trigger] modes[i]
                == CombineMode::RootRoutedPartial && #[trigger] modes[j]
                == CombineMode::RankPartial ==> state.combine_modes(modes) == (RunState {
                stop: Some(Stop::Refused(EpError::MixedCombineModes)),
                ..state
            }),
{
    if modes.len() > 0 {
        assert(modes[0] == CombineMode::RootRoutedPartial || modes[0] == CombineMode::RankPartial);
    }
}

/// A partial of fewer than four bytes for every element of the residual is
/// refused, the lowest such rank by its size. Where every partial is large enough
/// the root is asked what it is bound to. Nothing else changes.
pub proof fn partials_hold_the_residual<E>(state: RunState<E>, partial_bytes: Seq<usize>)
    requires
        state.residual_dim * 4 <= usize::MAX,
        partial_bytes.len() <= usize::MAX,
    ensures
        (forall|r: int|
            0 <= r < partial_bytes.len() ==> #[trigger] partial_bytes[r] >= state.residual_dim * 4)
            ==> state.partial_sizes(partial_bytes) == (RunState {
            plan: Plan::RouteViewPending { root: None, rank: 0 },
            ..state
        }),
        forall|r: int|
            0 <= r < partial_bytes.len() && (#[trigger] partial_bytes[r]) < state.residual_dim * 4
                && (forall|q: int|
                0 <= q < r ==> #[trigger] partial_bytes[q] >= state.residual_dim * 4)
                ==> state.partial_sizes(partial_bytes) == (RunState {
                stop: Some(
                    Stop::Refused(
                        EpError::PartialTooSmall {
                            rank: r as usize,
                            bytes: partial_bytes[r],
                            needed: (state.residual_dim * 4) as usize,
                        },
                    ),
                ),
                ..state
            }),
{
    let needed = (state.residual_dim * 4) as usize;
    lemma_partial_error_none(partial_bytes, needed, 0);
    assert forall|r: int|
        0 <= r < partial_bytes.len() && (#[trigger] partial_bytes[r]) < needed && (forall|q: int|
            0 <= q < r ==> #[trigger] partial_bytes[q]
                >= needed) implies route::partial_error(partial_bytes, needed, 0) == Some(
        EpError::PartialTooSmall { rank: r as usize, bytes: partial_bytes[r], needed },
    ) by {
        lemma_partial_error_at(partial_bytes, needed, 0, r);
    }
}

proof fn lemma_partial_error_none(partial_bytes: Seq<usize>, needed: usize, from: int)
    requires
        0 <= from <= partial_bytes.len(),
    ensures
        (forall|r: int| from <= r < partial_bytes.len() ==> #[trigger] partial_bytes[r] >= needed)
            ==> route::partial_error(partial_bytes, needed, from) is None,
    decreases partial_bytes.len() - from,
{
    if from < partial_bytes.len() {
        lemma_partial_error_none(partial_bytes, needed, from + 1);
    }
}

proof fn lemma_partial_error_at(partial_bytes: Seq<usize>, needed: usize, from: int, r: int)
    requires
        0 <= from <= r < partial_bytes.len(),
        partial_bytes[r] < needed,
        forall|q: int| from <= q < r ==> #[trigger] partial_bytes[q] >= needed,
    ensures
        route::partial_error(partial_bytes, needed, from) == Some(
            EpError::PartialTooSmall { rank: r as usize, bytes: partial_bytes[r], needed },
        ),
    decreases r - from,
{
    if from < r {
        lemma_partial_error_at(partial_bytes, needed, from + 1, r);
    }
}

/// The root is refused for the first of these that holds: it has no view; its
/// view has no contract; its contract is known to be for another combine; it is
/// not rank 0 of its shard; its shard is for another number of ranks; it routes to
/// no expert; its width is not the residual's. Else its view is kept and the next
/// rank is asked, or, without one, all have agreed. Nothing else changes.
pub proof fn roots_are_held_to_the_mesh<E>(state: RunState<E>, view: Option<RouteView>)
    requires
        state.plan == (Plan::RouteViewPending { root: None, rank: 0 }),
        state.ranks > 0,
    ensures
        ({
            let after = state.route_view(view);
            let stopped = |e: EpError| RunState { stop: Some(Stop::Refused(e)), ..state };
            &&& view is None ==> after == stopped(EpError::RouteViewMissing { rank: 0 })
            &&& view matches Some(v) ==> {
                let contract = v.contract_id is Some;
                let routed = contract && v.root_routed != Some(false);
                let placed = routed && v.local_rank == 0;
                let counted = placed && v.rank_count == state.ranks;
                let chosen = counted && v.k > 0;
                let wide = chosen && v.hidden == state.residual_dim;
                &&& !contract ==> after == stopped(EpError::RootHasNoContract)
                &&& contract && !routed ==> after == stopped(EpError::RootContractNotRootRouted)
                &&& routed && !placed ==> after == stopped(
                    EpError::LocalRank { rank: 0, local_rank: v.local_rank },
                )
                &&& placed && !counted ==> after == stopped(
                    EpError::RootRankCount { rank_count: v.rank_count, ranks: state.ranks },
                )
                &&& counted && !chosen ==> after == stopped(EpError::ZeroTopK)
                &&& chosen && !wide ==> after == stopped(
                    EpError::RootHidden { hidden: v.hidden, residual_dim: state.residual_dim },
                )
                &&& wide && state.ranks == 1 ==> after == (RunState {
                    plan: Plan::RootRouted { k: None },
                    ..state
                })
                &&& wide && state.ranks > 1 ==> after == (RunState {
                    plan: Plan::RouteViewPending { root: Some(v), rank: 1 },
                    ..state
                })
            }
        }),
{
}

/// Another rank is refused for the first of these that holds: it has no view; its
/// view has no contract; its contract, layer, width, experts per token or experts
/// in all are not the root's; it is not its own rank of its shard; its shard is
/// for another number of ranks. Else the next rank is asked, with the same root,
/// or, without one, all have agreed. Nothing else changes.
pub proof fn ranks_are_held_to_the_root<E>(
    state: RunState<E>,
    root: RouteView,
    rank: usize,
    view: Option<RouteView>,
)
    requires
        state.plan == (Plan::RouteViewPending { root: Some(root), rank }),
        rank < state.ranks,
    ensures
        ({
            let after = state.route_view(view);
            let stopped = |e: EpError| RunState { stop: Some(Stop::Refused(e)), ..state };
            &&& view is None ==> after == stopped(EpError::RouteViewMissing { rank })
            &&& view matches Some(v) ==> {
                let contract = v.contract_id is Some;
                let agrees = contract && v.contract_id == root.contract_id && v.layer == root.layer
                    && v.hidden == root.hidden && v.k == root.k && v.n_exp == root.n_exp;
                let placed = agrees && v.local_rank == rank;
                let counted = placed && v.rank_count == state.ranks;
                &&& !contract ==> after == stopped(EpError::RankHasNoContract { rank })
                &&& contract && !agrees ==> after == stopped(EpError::RankDisagrees { rank })
                &&& agrees && !placed ==> after == stopped(
                    EpError::LocalRank { rank, local_rank: v.local_rank },
                )
                &&& placed && !counted ==> after == stopped(
                    EpError::RankRankCount { rank, rank_count: v.rank_count, ranks: state.ranks },
                )
                &&& counted && rank + 1 == state.ranks ==> after == (RunState {
                    plan: Plan::RootRouted { k: None },
                    ..state
                })
                &&& counted && rank + 1 < state.ranks ==> after == (RunState {
                    plan: Plan::RouteViewPending { root: Some(root), rank: (rank + 1) as usize },
                    ..state
                })
            }
        }),
{
}

/// A peer path is gone into only with peer access and every reported device a
/// gfx1201: then the bindings of the path for this many ranks are asked, three or
/// four. One device that is none, wherever it stands, or no peer access, and the
/// partials are summed. Nothing else changes.
pub proof fn peer_paths_need_every_device<E>(
    state: RunState<E>,
    peer_access: bool,
    gfx1201: Seq<bool>,
)
    requires
        state.plan == (Plan::AttentionTp { ending: Ending::DevicesPending }) || state.plan == (
        Plan::RankPartial { ending: Ending::DevicesPending }),
    ensures
        ({
            let after = state.peer_devices(peer_access, gfx1201);
            let to = |ending: Ending|
                RunState {
                    plan: if state.plan is AttentionTp {
                        Plan::AttentionTp { ending }
                    } else {
                        Plan::RankPartial { ending }
                    },
                    ..state
                };
            &&& !peer_access ==> after == to(Ending::Decided(Finish::AllReduce))
            &&& forall|i: int|
                0 <= i < gfx1201.len() && !(#[trigger] gfx1201[i]) ==> after == to(
                    Ending::Decided(Finish::AllReduce),
                )
            &&& peer_access && (forall|i: int|
                0 <= i < gfx1201.len() ==> #[trigger] gfx1201[i]) ==> {
                &&& state.ranks == 3 ==> after == to(Ending::Hc3Pending)
                &&& state.ranks == 4 ==> after == to(Ending::Hc4Pending)
            }
            &&& state.ranks != 3 && state.ranks != 4 ==> after == to(
                Ending::Decided(Finish::AllReduce),
            )
        }),
{
}

/// A peer path is taken only where every reported binding supports it: of three
/// ranks the three-peer path, of four the four-peer path. One binding that does
/// not, wherever it stands, and the partials are summed. Nothing else changes.
pub proof fn peer_paths_need_every_binding<E>(
    state: RunState<E>,
    ending: Ending,
    supported: Seq<bool>,
)
    requires
        ending == Ending::Hc3Pending || ending == Ending::Hc4Pending,
        state.plan == (Plan::AttentionTp { ending }) || state.plan == (Plan::RankPartial { ending }),
    ensures
        ({
            let after = state.peer_bindings(supported);
            let ended = |finish: Finish|
                RunState {
                    plan: if state.plan is AttentionTp {
                        Plan::AttentionTp { ending: Ending::Decided(finish) }
                    } else {
                        Plan::RankPartial { ending: Ending::Decided(finish) }
                    },
                    ..state
                };
            &&& forall|i: int|
                0 <= i < supported.len() && !(#[trigger] supported[i]) ==> after == ended(
                    Finish::AllReduce,
                )
            &&& (forall|i: int| 0 <= i < supported.len() ==> #[trigger] supported[i]) ==> {
                &&& ending == Ending::Hc3Pending ==> after == ended(Finish::PeerHc3)
                &&& ending == Ending::Hc4Pending ==> after == ended(Finish::PeerHc4)
            }
        }),
{
}

/// The three-peer path is admitted exactly to three ranks whose devices are peers
/// and whose bindings all support it, and the four-peer path alike to four.
pub proof fn peer_paths_are_admitted_by_rank_count(ranks: int, peers: bool, flags: Seq<bool>)
    ensures
        plan::hc3_admitted(ranks, peers, flags) <==> ranks == 3 && peers && forall|i: int|
            0 <= i < flags.len() ==> #[trigger] flags[i],
        plan::hc4_admitted(ranks, peers, flags) <==> ranks == 4 && peers && forall|i: int|
            0 <= i < flags.len() ==> #[trigger] flags[i],
{
}

/// The root's route is copied with as many experts as its view then holds; where
/// the view is gone the run is refused. Nothing else changes.
pub proof fn routes_are_copied_as_the_root_holds_them<E>(state: RunState<E>, k: usize)
    ensures
        state.root_top_k(Some(k)) == (RunState { plan: Plan::RootRouted { k: Some(k) }, ..state }),
        state.root_top_k(None) == (RunState {
            stop: Some(Stop::Refused(EpError::RouteViewLost { rank: 0 })),
            ..state
        }),
{
}

/// The reports of all ranks are always enough, and never more than are needed
/// where two of them differ.
pub proof fn full_reports_are_enough(
    enabled: Seq<bool>,
    modes: Seq<CombineMode>,
    flags: Seq<bool>,
    ranks: int,
)
    ensures
        enabled.len() == ranks ==> plan::reported(enabled, ranks),
        modes.len() == ranks ==> plan::reported(modes, ranks),
        flags.len() == ranks ==> plan::flagged(flags, ranks),
        forall|i: int|
            0 <= i < enabled.len() < ranks && #[trigger] enabled[i] != enabled[0]
                ==> plan::reported(enabled, ranks),
        forall|i: int|
            0 <= i < modes.len() < ranks && #[trigger] modes[i] != modes[0] ==> plan::reported(
                modes,
                ranks,
            ),
        forall|i: int|
            0 <= i < flags.len() < ranks && !(#[trigger] flags[i]) ==> plan::flagged(flags, ranks),
{
}

} // verus!
