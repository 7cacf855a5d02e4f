//! The run of one layer program: which step comes next, and what its outcome
//! leads to.
//!
//! A [`LayerRun`] asks for one thing at a time. A step is performed and its
//! outcome reported; a question is answered from what the mesh reports. The
//! first outcome that is not a success ends the run: nothing is tried again and
//! nothing else takes its place.

use crate::ep::error::EpError;
use crate::ep::plan;
use crate::ep::plan::{
    check_all_set, check_none_set, check_peers_open, push_attend_finish, push_contributions,
    push_moe_finish, push_rank_partials, push_root_part, CombineMode, Ending, Finish, OpKind, Plan,
    Question,
};
use crate::ep::route;
use crate::ep::route::{
    check_partials, check_rank, check_root, check_size, RouteView, ELEMENT_BYTES,
};
use crate::ep::script::{Step, Task};
use vstd::prelude::*;

verus! {

/// What came of a step.
#[derive(Debug)]
pub enum Outcome<E> {
    Done,
    /// What the step requires is not there.
    Missing,
    /// The device or the binding failed.
    Failed(E),
}

/// Why a run ended early.
#[derive(Debug)]
pub enum Stop<E> {
    /// The executor refuses to go on.
    Refused(EpError),
    /// A step failed.
    Failed(E),
}

/// What a run asks for next.
#[derive(Debug, Clone, Copy, PartialEq, Eq, Structural)]
pub enum Request {
    Perform(Step),
    Answer(Question),
    /// The program has been run.
    Complete,
    /// The run ended early.
    Stopped,
}

/// The state of a run.
#[verifier::ext_equal]
pub struct RunState<E> {
    pub ranks: usize,
    pub residual_dim: usize,
    pub program: Seq<OpKind>,
    /// The plans of the ops that are done.
    pub past: Seq<Plan>,
    /// The plan of the op at hand.
    pub plan: Plan,
    /// How many of the plan's steps are done.
    pub at: int,
    pub stop: Option<Stop<E>>,
}

/// All ranks want this combine.
pub open spec fn all_want(modes: Seq<CombineMode>, mode: CombineMode) -> bool {
    forall|i: int| 0 <= i < modes.len() ==> #[trigger] modes[i] == mode
}

/// The first MoE op from `op` on, or the end of the program.
pub open spec fn next_moe(program: Seq<OpKind>, op: int) -> int
    decreases program.len() - op,
{
    if op >= program.len() || program[op] == OpKind::Moe {
        op
    } else {
        next_moe(program, op + 1)
    }
}

/// The steps of the ops done so far, in order.
pub open spec fn past_steps(past: Seq<Plan>, ranks: int, residual_dim: usize) -> Seq<Step>
    decreases past.len(),
{
    if past.len() == 0 {
        Seq::empty()
    } else {
        past_steps(past.drop_last(), ranks, residual_dim) + past.last().script(
            (past.len() - 1) as usize,
            ranks,
            residual_dim,
        )
    }
}

impl<E> RunState<E> {
    /// The start of a run. Without ranks there is nothing to perform, so that
    /// only a MoE op stands between the start and the end.
    pub open spec fn start(ranks: usize, residual_dim: usize, program: Seq<OpKind>) -> RunState<E> {
        if ranks == 0 {
            RunState {
                ranks,
                residual_dim,
                program,
                past: Seq::new(next_moe(program, 0) as nat, |i: int| Plan::Replicated),
                plan: Plan::at(program, next_moe(program, 0)),
                at: 0,
                stop: None,
            }
        } else {
            RunState {
                ranks,
                residual_dim,
                program,
                past: Seq::empty(),
                plan: Plan::at(program, 0),
                at: 0,
                stop: None,
            }
        }
    }

    /// The steps decided on for the op at hand.
    pub open spec fn script(self) -> Seq<Step> {
        self.plan.script(self.past.len() as usize, self.ranks as int, self.residual_dim)
    }

    /// All steps performed so far.
    pub open spec fn performed(self) -> Seq<Step> {
        past_steps(self.past, self.ranks as int, self.residual_dim) + self.script().take(self.at)
    }

    /// What the run asks for.
    pub open spec fn request(self) -> Request {
        if self.stop is Some {
            Request::Stopped
        } else if self.at < self.script().len() {
            Request::Perform(self.script()[self.at])
        } else {
            match self.plan.question() {
                Some(question) => Request::Answer(question),
                None => Request::Complete,
            }
        }
    }

    /// The op at hand done, on to the next.
    pub open spec fn next_op(self) -> RunState<E> {
        let past = self.past.push(self.plan);
        RunState {
            past,
            plan: Plan::at(self.program, past.len() as int),
            at: 0,
            ..self
        }
    }

    pub open spec fn refused(self, error: EpError) -> RunState<E> {
        RunState { stop: Some(Stop::Refused(error)), ..self }
    }

    pub open spec fn on(self, plan: Plan) -> RunState<E> {
        RunState { plan, ..self }
    }

    /// A step's outcome: the next step, or the next op behind a plan's last
    /// step, or the end of the run.
    pub open spec fn reported(self, outcome: Outcome<E>) -> RunState<E> {
        match outcome {
            Outcome::Done => {
                let stepped = RunState { at: self.at + 1, ..self };
                if stepped.at == self.script().len() && self.plan.question() is None {
                    stepped.next_op()
                } else {
                    stepped
                }
            },
            Outcome::Missing => self.refused(self.script()[self.at].absence()->0),
            Outcome::Failed(error) => RunState { stop: Some(Stop::Failed(error)), ..self },
        }
    }

    /// Which ranks run attention tensor-parallel: all, or the op is replicated,
    /// or the run is refused.
    pub open spec fn attention_tp(self, enabled: Seq<bool>) -> RunState<E> {
        if plan::none_set(enabled) {
            self.on(Plan::Replicated)
        } else if plan::all_set(enabled) {
            self.on(Plan::AttentionTp { ending: Ending::opening(self.ranks as int) })
        } else {
            self.refused(EpError::MixedAttentionTp)
        }
    }

    /// Which combine the ranks want: they must all want the same.
    pub open spec fn combine_modes(self, modes: Seq<CombineMode>) -> RunState<E> {
        if all_want(modes, CombineMode::RootRoutedPartial) {
            match route::size_error(self.ranks as int, self.residual_dim as int) {
                Some(error) => self.refused(error),
                None => self.on(Plan::PartialSizesPending),
            }
        } else if all_want(modes, CombineMode::RankPartial) {
            self.on(Plan::RankPartial { ending: Ending::opening(self.ranks as int) })
        } else {
            self.refused(EpError::MixedCombineModes)
        }
    }

    /// How large the partials are: they must all hold the residual. Only then are
    /// the ranks asked what they are bound to.
    pub open spec fn partial_sizes(self, partial_bytes: Seq<usize>) -> RunState<E> {
        match route::sizes_error(partial_bytes, self.residual_dim) {
            Some(error) => self.refused(error),
            None => self.on(Plan::RouteViewPending { root: None, rank: 0 }),
        }
    }

    /// What the view of the rank that is asked is refused for.
    pub open spec fn view_error(self, view: Option<RouteView>) -> Option<EpError> {
        match self.plan->root {
            None => route::root_error(view, self.ranks, self.residual_dim),
            Some(root) => route::rank_error(view, root, self.plan->rank, self.ranks),
        }
    }

    /// What one rank is bound to: the root to a plan of its own, any other to
    /// the root's. Then the next rank is asked, until all have been.
    pub open spec fn route_view(self, view: Option<RouteView>) -> RunState<E> {
        match self.view_error(view) {
            Some(error) => self.refused(error),
            None => if self.plan->rank + 1 == self.ranks {
                self.on(Plan::RootRouted { k: None })
            } else {
                let root = match self.plan->root {
                    None => view,
                    Some(root) => Some(root),
                };
                self.on(Plan::RouteViewPending { root, rank: (self.plan->rank + 1) as usize })
            },
        }
    }

    /// The way to combine the partials.
    pub open spec fn ending_in(self, ending: Ending) -> RunState<E> {
        match self.plan {
            Plan::AttentionTp { ending: _ } => self.on(Plan::AttentionTp { ending }),
            _ => self.on(Plan::RankPartial { ending }),
        }
    }

    /// How the op at hand ends, as far as it has been decided.
    pub open spec fn ending(self) -> Ending {
        match self.plan {
            Plan::AttentionTp { ending } => ending,
            Plan::RankPartial { ending } => ending,
            _ => Ending::DevicesPending,
        }
    }

    /// Whether the devices can read each other's partials.
    pub open spec fn peer_devices(self, peer_access: bool, gfx1201: Seq<bool>) -> RunState<E> {
        self.ending_in(
            Ending::with_devices(self.ranks as int, plan::peers_open(peer_access, gfx1201)),
        )
    }

    /// Which bindings support the peer path at hand.
    pub open spec fn peer_bindings(self, supported: Seq<bool>) -> RunState<E> {
        self.ending_in(self.ending().with_bindings(supported))
    }

    /// The root's experts per token, where it still has its route view.
    pub open spec fn root_top_k(self, k: Option<usize>) -> RunState<E> {
        match k {
            Some(k) => self.on(Plan::RootRouted { k: Some(k) }),
            None => self.refused(EpError::RouteViewLost { rank: 0 }),
        }
    }

    /// The invariant of a run.
    pub open spec fn sound(self) -> bool {
        &&& self.past.len() <= self.program.len() <= usize::MAX
        &&& 0 <= self.at <= self.script().len()
        &&& self.plan == Plan::Ended <==> self.past.len() == self.program.len()
        &&& self.plan != Plan::Ended ==> {
            &&& self.ranks > 0 || self.plan == Plan::MoePending
            &&& self.plan.suits(
                self.program[self.past.len() as int],
                self.ranks as int,
                self.residual_dim,
            )
        }
        &&& self.plan != Plan::Ended && self.plan.question() is None ==> self.at
            < self.script().len()
        &&& forall|i: int| 0 <= i < self.past.len() ==> {
            &&& (#[trigger] self.past[i]).question() is None
            &&& self.past[i].suits(self.program[i], self.ranks as int, self.residual_dim)
        }
    }
}

/// Whether all ranks want this combine.
fn check_all_want(modes: &[CombineMode], mode: CombineMode) -> (all: bool)
    ensures
        all == all_want(modes@, mode),
{
    let mut i: usize = 0;
    while i < modes.len()
        invariant
            i <= modes.len(),
            forall|j: int| 0 <= j < i ==> #[trigger] modes@[j] == mode,
        decreases modes.len() - i,
    {
        if modes[i] != mode {
            return false;
        }
        i = i + 1;
    }
    true
}

/// Starts the run of one lowered layer program across `ranks` ranks whose
/// residual stream is `residual_dim` elements wide.
pub fn run_layer_program_ep<E>(
    ranks: usize,
    residual_dim: usize,
    program: Vec<OpKind>,
) -> (run: LayerRun<E>)
    ensures
        run.wf(),
        run@ == RunState::<E>::start(ranks, residual_dim, program@),
{
    if ranks == 0 {
        let mut op: usize = 0;
        while op < program.len() && program[op] != OpKind::Moe
            invariant
                op <= program.len(),
                next_moe(program@, 0) == next_moe(program@, op as int),
                forall|i: int| 0 <= i < op ==> #[trigger] program@[i] != OpKind::Moe,
            decreases program.len() - op,
        {
            op = op + 1;
        }
        let opened: (Plan, Vec<Step>) = Plan::open_op(&program, op, ranks, residual_dim);
        LayerRun {
            ranks,
            residual_dim,
            program,
            op,
            plan: opened.0,
            steps: opened.1,
            at: 0,
            stop: None,
            past: Ghost(Seq::new(op as nat, |i: int| Plan::Replicated)),
        }
    } else {
        let opened: (Plan, Vec<Step>) = Plan::open_op(&program, 0, ranks, residual_dim);
        proof {
            assert(program.len() <= usize::MAX);
        }
        LayerRun {
            ranks,
            residual_dim,
            program,
            op: 0,
            plan: opened.0,
            steps: opened.1,
            at: 0,
            stop: None,
            past: Ghost(Seq::empty()),
        }
    }
}

/// A run of one layer program across the ranks of a mesh.
pub struct LayerRun<E> {
    ranks: usize,
    residual_dim: usize,
    program: Vec<OpKind>,
    op: usize,
    plan: Plan,
    steps: Vec<Step>,
    at: usize,
    stop: Option<Stop<E>>,
    past: Ghost<Seq<Plan>>,
}

impl<E> View for LayerRun<E> {
    type V = RunState<E>;

    closed spec fn view(&self) -> RunState<E> {
        RunState {
            ranks: self.ranks,
            residual_dim: self.residual_dim,
            program: self.program@,
            past: self.past@,
            plan: self.plan,
            at: self.at as int,
            stop: self.stop,
        }
    }
}

impl<E> LayerRun<E> {
    /// The run is sound, and holds the steps that its plan decided on.
    pub closed spec fn wf(&self) -> bool {
        &&& self@.sound()
        &&& self.op == self.past@.len()
        &&& self.steps@ == self@.script()
    }

    /// What the run asks for next.
    pub fn request(&self) -> (request: Request)
        requires
            self.wf(),
        ensures
            request == self@.request(),
    {
        if self.stop.is_some() {
            Request::Stopped
        } else if self.at < self.steps.len() {
            Request::Perform(self.steps[self.at])
        } else {
            match self.plan.open_question() {
                Some(question) => Request::Answer(question),
                None => Request::Complete,
            }
        }
    }

    /// Why the run ended early, where it did.
    pub fn into_stop(self) -> (stop: Option<Stop<E>>)
        ensures
            stop == self@.stop,
    {
        self.stop
    }

    /// Reports what came of the step that the run asked for.
    pub fn report(&mut self, outcome: Outcome<E>)
        requires
            old(self).wf(),
            old(self)@.request() is Perform,
            outcome is Missing ==> old(self)@.request()->Perform_0.absence() is Some,
        ensures
            final(self).wf(),
            final(self)@ == old(self)@.reported(outcome),
    {
        let ghost before = self@;
        match outcome {
            Outcome::Done => {
                let total: usize = self.steps.len();
                self.at = self.at + 1;
                if self.at == total && self.plan.open_question().is_none() {
                    let ghost done = self.plan;
                    proof {
                        self.past@ = self.past@.push(done);
                    }
                    self.op = self.op + 1;
                    let opened: (Plan, Vec<Step>) = Plan::open_op(
                        &self.program,
                        self.op,
                        self.ranks,
                        self.residual_dim,
                    );
                    self.plan = opened.0;
                    self.steps = opened.1;
                    self.at = 0;
                }
            },
            Outcome::Missing => {
                if let Some(error) = self.steps[self.at].absence_error() {
                    self.stop = Some(Stop::Refused(error));
                }
            },
            Outcome::Failed(error) => {
                self.stop = Some(Stop::Failed(error));
            },
        }
        proof {
            assert(self@ == before.reported(outcome));
            before.lemma_reported_sound(outcome);
        }
    }

    /// Ends the run with a refusal.
    fn refuse(&mut self, error: EpError)
        requires
            old(self).wf(),
        ensures
            final(self).wf(),
            final(self)@ == old(self)@.refused(error),
    {
        self.stop = Some(Stop::Refused(error));
    }

    /// Says which ranks run attention tensor-parallel, rank by rank. The reports
    /// may end once two ranks are told apart.
    pub fn answer_attention_tp(&mut self, enabled: &[bool])
        requires
            old(self).wf(),
            old(self)@.request() == Request::Answer(Question::AttentionTp),
            plan::reported(enabled@, old(self)@.ranks as int),
        ensures
            final(self).wf(),
            final(self)@ == old(self)@.attention_tp(enabled@),
    {
        if check_none_set(enabled) {
            self.plan = Plan::Replicated;
            Task::Dispatch.push_by_bound_ranks(&mut self.steps, self.op, 0, self.ranks);
            proof {
                assert(self.steps@ =~= self@.script());
            }
        } else if check_all_set(enabled) {
            let ending: Ending = Ending::open_ending(self.ranks);
            self.plan = Plan::AttentionTp { ending };
            Task::RunAttend.push_by_bound_ranks(&mut self.steps, self.op, 0, self.ranks);
            if let Ending::Decided(finish) = ending {
                push_attend_finish(
                    &mut self.steps,
                    finish,
                    self.op,
                    self.ranks,
                    self.residual_dim,
                );
            }
            proof {
                assert(self.steps@ =~= self@.script());
            }
        } else {
            self.refuse(EpError::MixedAttentionTp);
        }
    }

    /// Says which combine each rank wants, rank by rank. The reports may end once
    /// two ranks are told apart. Without ranks there is no root to go on with:
    /// the run can only be refused, for bytes that do not fit a machine word.
    pub fn answer_combine_modes(&mut self, modes: &[CombineMode])
        requires
            old(self).wf(),
            old(self)@.request() == Request::Answer(Question::CombineModes),
            plan::reported(modes@, old(self)@.ranks as int),
            old(self)@.ranks == 0 ==> old(self)@.residual_dim * ELEMENT_BYTES > usize::MAX,
        ensures
            final(self).wf(),
            final(self)@ == old(self)@.combine_modes(modes@),
    {
        proof {
            assert(self.steps@ =~= Seq::empty());
        }
        if check_all_want(modes, CombineMode::RootRoutedPartial) {
            match check_size(self.ranks, self.residual_dim) {
                Ok(_) => {
                    self.plan = Plan::PartialSizesPending;
                },
                Err(error) => {
                    self.refuse(error);
                },
            }
        } else if check_all_want(modes, CombineMode::RankPartial) {
            let ending: Ending = Ending::open_ending(self.ranks);
            self.plan = Plan::RankPartial { ending };
            push_rank_partials(&mut self.steps, self.op, self.ranks, self.residual_dim);
            if let Ending::Decided(finish) = ending {
                push_moe_finish(&mut self.steps, finish, self.op, self.ranks, self.residual_dim);
            }
            proof {
                assert(self.steps@ =~= self@.script());
            }
        } else {
            self.refuse(EpError::MixedCombineModes);
        }
    }

    /// Says how large each rank's partial is.
    pub fn answer_partial_sizes(&mut self, partial_bytes: &[usize])
        requires
            old(self).wf(),
            old(self)@.request() == Request::Answer(Question::PartialSizes),
            partial_bytes.len() == old(self)@.ranks,
        ensures
            final(self).wf(),
            final(self)@ == old(self)@.partial_sizes(partial_bytes@),
    {
        match check_partials(partial_bytes, self.residual_dim) {
            Ok(()) => {
                self.plan = Plan::RouteViewPending { root: None, rank: 0 };
            },
            Err(error) => {
                self.refuse(error);
            },
        }
    }

    /// Says what the rank that the run asks about is bound to.
    pub fn answer_route_view(&mut self, view: &Option<RouteView>)
        requires
            old(self).wf(),
            old(self)@.request() matches Request::Answer(Question::RouteView { rank }),
        ensures
            final(self).wf(),
            final(self)@ == old(self)@.route_view(*view),
    {
        proof {
            assert(self.steps@ =~= Seq::empty());
        }
        if let Plan::RouteViewPending { root, rank } = self.plan {
            let checked: Result<RouteView, EpError> = match root {
                None => check_root(view, self.ranks, self.residual_dim),
                Some(root) => match check_rank(view, &root, rank, self.ranks) {
                    Ok(()) => Ok(root),
                    Err(error) => Err(error),
                },
            };
            match checked {
                Err(error) => {
                    self.refuse(error);
                },
                Ok(root) => {
                    if rank + 1 == self.ranks {
                        self.plan = Plan::RootRouted { k: None };
                        push_root_part(&mut self.steps, self.op, self.ranks, self.residual_dim);
                        proof {
                            assert(self.steps@ =~= self@.script());
                        }
                    } else {
                        self.plan = Plan::RouteViewPending { root: Some(root), rank: rank + 1 };
                    }
                },
            }
        }
    }

    /// Settles how the op at hand ends.
    fn end_in(&mut self, ending: Ending)
        requires
            old(self).wf(),
            old(self)@.plan is AttentionTp || old(self)@.plan is RankPartial,
            !(old(self)@.ending() is Decided),
            ending.suits(old(self)@.ranks as int),
            old(self)@.at == old(self)@.script().len(),
        ensures
            final(self).wf(),
            final(self)@ == old(self)@.ending_in(ending),
    {
        match self.plan {
            Plan::AttentionTp { ending: _ } => {
                self.plan = Plan::AttentionTp { ending };
                if let Ending::Decided(finish) = ending {
                    push_attend_finish(
                        &mut self.steps,
                        finish,
                        self.op,
                        self.ranks,
                        self.residual_dim,
                    );
                }
            },
            _ => {
                self.plan = Plan::RankPartial { ending };
                if let Ending::Decided(finish) = ending {
                    push_moe_finish(
                        &mut self.steps,
                        finish,
                        self.op,
                        self.ranks,
                        self.residual_dim,
                    );
                }
            },
        }
    }

    /// Says whether there is peer access and, if so, which devices are a gfx1201,
    /// rank by rank. The flags may end once one is not set.
    pub fn answer_peer_devices(&mut self, peer_access: bool, gfx1201: &[bool])
        requires
            old(self).wf(),
            old(self)@.request() == Request::Answer(Question::PeerDevices),
            peer_access ==> plan::flagged(gfx1201@, old(self)@.ranks as int),
        ensures
            final(self).wf(),
            final(self)@ == old(self)@.peer_devices(peer_access, gfx1201@),
    {
        let peers: bool = check_peers_open(peer_access, gfx1201);
        self.end_in(Ending::take_devices(self.ranks, peers));
    }

    /// Says which bindings support the peer path that the run asks about, rank by
    /// rank. The flags may end once one is not set.
    pub fn answer_peer_bindings(&mut self, supported: &[bool])
        requires
            old(self).wf(),
            old(self)@.request() == Request::Answer(Question::PeerHc3) || old(self)@.request()
                == Request::Answer(Question::PeerHc4),
            plan::flagged(supported@, old(self)@.ranks as int),
        ensures
            final(self).wf(),
            final(self)@ == old(self)@.peer_bindings(supported@),
    {
        let ending: Ending = match self.plan {
            Plan::AttentionTp { ending } => ending,
            Plan::RankPartial { ending } => ending,
            _ => Ending::DevicesPending,
        };
        let finish: Finish = ending.take_bindings(self.ranks, supported);
        self.end_in(Ending::Decided(finish));
    }

    /// Says how many experts per token the root's route view holds, if it is
    /// still there.
    pub fn answer_root_top_k(&mut self, k: Option<usize>)
        requires
            old(self).wf(),
            old(self)@.request() == Request::Answer(Question::RootTopK),
        ensures
            final(self).wf(),
            final(self)@ == old(self)@.root_top_k(k),
    {
        match k {
            Some(k) => {
                self.plan = Plan::RootRouted { k: Some(k) };
                push_contributions(
                    &mut self.steps,
                    self.op,
                    self.ranks,
                    self.residual_dim,
                    k,
                );
            },
            None => {
                self.refuse(EpError::RouteViewLost { rank: 0 });
            },
        }
    }
}

/// A run is sound at all times.
pub proof fn runs_are_sound<E>(run: LayerRun<E>)
    requires
        run.wf(),
    ensures
        run@.sound(),
{
}

impl<E> RunState<E> {
    /// Reporting keeps a run sound.
    pub(crate) proof fn lemma_reported_sound(self, outcome: Outcome<E>)
        requires
            self.sound(),
            self.request() is Perform,
        ensures
            self.reported(outcome).sound(),
    {
        let after = self.reported(outcome);
        if self.past.len() < after.past.len() {
            assert forall|i: int| 0 <= i < after.past.len() implies {
                &&& (#[trigger] after.past[i]).question() is None
                &&& after.past[i].suits(after.program[i], after.ranks as int, after.residual_dim)
            } by {
                if i < self.past.len() {
                    assert(after.past[i] == self.past[i]);
                }
            }
        }
    }
}

} // verus!
