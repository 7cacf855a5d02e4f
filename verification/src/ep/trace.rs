//! Runs as traces of what they are told, and what it means to run one program
//! behind another.

use crate::ep::plan;
use crate::ep::plan::{CombineMode, Ending, Finish, OpKind, Plan, Question};
use crate::ep::route::{RouteView, ELEMENT_BYTES};
use crate::ep::run;
use crate::ep::run::{Outcome, Request, RunState};
use crate::ep::script;
use crate::ep::script::{Buffers, Step, Task};
use vstd::prelude::*;

verus! {

/// What a run is told: the outcome of a step, or an answer.
pub enum Event<E> {
    Outcome(Outcome<E>),
    AttentionTp(Seq<bool>),
    CombineModes(Seq<CombineMode>),
    PartialSizes(Seq<usize>),
    RouteView(Option<RouteView>),
    PeerDevices(bool, Seq<bool>),
    PeerBindings(Seq<bool>),
    RootTopK(Option<usize>),
}

impl<E> RunState<E> {
    /// The event is one that the run asks for.
    pub open spec fn admits(self, event: Event<E>) -> bool {
        match event {
            Event::Outcome(outcome) => {
                &&& self.request() is Perform
                &&& outcome is Missing ==> self.request()->Perform_0.absence() is Some
            },
            Event::AttentionTp(enabled) => {
                &&& self.request() == Request::Answer(Question::AttentionTp)
                &&& plan::reported(enabled, self.ranks as int)
            },
            Event::CombineModes(modes) => {
                &&& self.request() == Request::Answer(Question::CombineModes)
                &&& plan::reported(modes, self.ranks as int)
                &&& self.ranks == 0 ==> self.residual_dim * ELEMENT_BYTES > usize::MAX
            },
            Event::PartialSizes(partial_bytes) => {
                &&& self.request() == Request::Answer(Question::PartialSizes)
                &&& partial_bytes.len() == self.ranks
            },
            Event::RouteView(view) => self.request() matches Request::Answer(
                Question::RouteView { rank },
            ),
            Event::PeerDevices(peer_access, gfx1201) => {
                &&& self.request() == Request::Answer(Question::PeerDevices)
                &&& peer_access ==> plan::flagged(gfx1201, self.ranks as int)
            },
            Event::PeerBindings(supported) => {
                &&& self.request() == Request::Answer(Question::PeerHc3) || self.request()
                    == Request::Answer(Question::PeerHc4)
                &&& plan::flagged(supported, self.ranks as int)
            },
            Event::RootTopK(k) => self.request() == Request::Answer(Question::RootTopK),
        }
    }

    /// The run once it has been told.
    pub open spec fn told(self, event: Event<E>) -> RunState<E> {
        match event {
            Event::Outcome(outcome) => self.reported(outcome),
            Event::AttentionTp(enabled) => self.attention_tp(enabled),
            Event::CombineModes(modes) => self.combine_modes(modes),
            Event::PartialSizes(partial_bytes) => self.partial_sizes(partial_bytes),
            Event::RouteView(view) => self.route_view(view),
            Event::PeerDevices(peer_access, gfx1201) => self.peer_devices(peer_access, gfx1201),
            Event::PeerBindings(supported) => self.peer_bindings(supported),
            Event::RootTopK(k) => self.root_top_k(k),
        }
    }

    /// The run asks for each of the events in turn.
    pub open spec fn admits_all(self, events: Seq<Event<E>>) -> bool
        decreases events.len(),
    {
        events.len() > 0 ==> {
            &&& self.admits_all(events.drop_last())
            &&& self.told_all(events.drop_last()).admits(events.last())
        }
    }

    /// The run once it has been told all of the events.
    pub open spec fn told_all(self, events: Seq<Event<E>>) -> RunState<E>
        decreases events.len(),
    {
        if events.len() == 0 {
            self
        } else {
            self.told_all(events.drop_last()).told(events.last())
        }
    }
}

/// A run stays sound, whatever it is told, and keeps its mesh and its program.
pub proof fn events_keep_runs_sound<E>(state: RunState<E>, event: Event<E>)
    requires
        state.sound(),
        state.admits(event),
    ensures
        state.told(event).sound(),
        state.told(event).ranks == state.ranks,
        state.told(event).residual_dim == state.residual_dim,
        state.told(event).program == state.program,
{
    match event {
        Event::Outcome(outcome) => {
            state.lemma_reported_sound(outcome);
        },
        _ => {
            assert(state.told(event).past == state.past);
        },
    }
}

/// A run is sound at its start.
pub proof fn starts_are_sound<E>(ranks: usize, residual_dim: usize, program: Seq<OpKind>)
    requires
        program.len() <= usize::MAX,
    ensures
        RunState::<E>::start(ranks, residual_dim, program).sound(),
{
    lemma_next_moe(program, 0);
}

/// No MoE op comes before the next one.
pub(crate) proof fn lemma_next_moe(program: Seq<OpKind>, op: int)
    requires
        0 <= op <= program.len(),
    ensures
        op <= run::next_moe(program, op) <= program.len(),
        forall|i: int|
            op <= i < run::next_moe(program, op) ==> #[trigger] program[i] != OpKind::Moe,
        run::next_moe(program, op) < program.len() ==> program[run::next_moe(program, op)]
            == OpKind::Moe,
    decreases program.len() - op,
{
    if op < program.len() && program[op] != OpKind::Moe {
        lemma_next_moe(program, op + 1);
    }
}

/// A step of a program that stands `by` ops further on.
pub open spec fn step_later(step: Step, by: int) -> Step {
    match step {
        Step::Dispatch { op, rank } => Step::Dispatch { op: (op + by) as usize, rank },
        Step::RunAttend { op, rank } => Step::RunAttend { op: (op + by) as usize, rank },
        Step::RunMoe { op, rank, skip_shared } => Step::RunMoe {
            op: (op + by) as usize,
            rank,
            skip_shared,
        },
        Step::PreflightRoot { op } => Step::PreflightRoot { op: (op + by) as usize },
        Step::PreflightContrib { op, rank } => Step::PreflightContrib {
            op: (op + by) as usize,
            rank,
        },
        Step::RunMoeRoot { op } => Step::RunMoeRoot { op: (op + by) as usize },
        Step::RunMoeContrib { op, rank } => Step::RunMoeContrib { op: (op + by) as usize, rank },
        other => other,
    }
}

/// The steps of a program that stands `by` ops further on.
pub open spec fn steps_later(steps: Seq<Step>, by: int) -> Seq<Step> {
    steps.map_values(|step: Step| step_later(step, by))
}

/// What a run asks for when its program stands `by` ops further on.
pub open spec fn request_later(request: Request, by: int) -> Request {
    match request {
        Request::Perform(step) => Request::Perform(step_later(step, by)),
        other => other,
    }
}

/// Where the run of two programs stands, one behind the other: at `first`, until
/// that is complete, and then at `second`.
pub open spec fn in_sequence<E>(first: RunState<E>, second: RunState<E>) -> RunState<E> {
    let program = first.program + second.program;
    if first.request() == Request::Complete {
        RunState { program, past: first.past + second.past, ..second }
    } else {
        RunState { program, ..first }
    }
}

/// Steps and further steps, both `by` ops further on.
proof fn lemma_concat_later(a: Seq<Step>, b: Seq<Step>, by: int)
    ensures
        steps_later(a + b, by) == steps_later(a, by) + steps_later(b, by),
{
    assert(steps_later(a + b, by) =~= steps_later(a, by) + steps_later(b, by));
}

/// A task that the ranks do in turn, its op `by` further on.
proof fn lemma_task_later(task: Task, op: int, by: int, from: int, ranks: int)
    requires
        0 <= op,
        0 <= by,
        op + by <= usize::MAX,
    ensures
        task.by_ranks((op + by) as usize, from, ranks) == steps_later(
            task.by_ranks(op as usize, from, ranks),
            by,
        ),
        task.by_bound_ranks((op + by) as usize, from, ranks) == steps_later(
            task.by_bound_ranks(op as usize, from, ranks),
            by,
        ),
{
    assert(task.by_ranks((op + by) as usize, from, ranks) =~= steps_later(
        task.by_ranks(op as usize, from, ranks),
        by,
    ));
    assert(task.by_bound_ranks((op + by) as usize, from, ranks) =~= steps_later(
        task.by_bound_ranks(op as usize, from, ranks),
        by,
    ));
}

/// How an op ends, the op `by` further on.
proof fn lemma_finishes_later(finish: Finish, op: int, by: int, ranks: int, residual_dim: usize)
    requires
        0 <= op,
        0 <= by,
        op + by <= usize::MAX,
    ensures
        plan::attend_finish(finish, (op + by) as usize, ranks, residual_dim) == steps_later(
            plan::attend_finish(finish, op as usize, ranks, residual_dim),
            by,
        ),
        plan::moe_finish(finish, (op + by) as usize, ranks, residual_dim) == steps_later(
            plan::moe_finish(finish, op as usize, ranks, residual_dim),
            by,
        ),
{
    assert(plan::attend_finish(finish, (op + by) as usize, ranks, residual_dim) =~= steps_later(
        plan::attend_finish(finish, op as usize, ranks, residual_dim),
        by,
    ));
    assert(plan::moe_finish(finish, (op + by) as usize, ranks, residual_dim) =~= steps_later(
        plan::moe_finish(finish, op as usize, ranks, residual_dim),
        by,
    ));
}

/// Zeroing names no op.
proof fn lemma_zero_partials_later(ranks: int, count: usize, by: int)
    ensures
        steps_later(script::zero_partials(ranks, count), by) == script::zero_partials(ranks, count),
{
    assert(steps_later(script::zero_partials(ranks, count), by) =~= script::zero_partials(
        ranks,
        count,
    ));
}

/// The root's part and what follows it, the op `by` further on.
proof fn lemma_root_routed_later(op: int, by: int, ranks: int, residual_dim: usize, k: usize)
    requires
        0 <= op,
        0 <= by,
        op + by <= usize::MAX,
    ensures
        plan::root_part((op + by) as usize, ranks, residual_dim) == steps_later(
            plan::root_part(op as usize, ranks, residual_dim),
            by,
        ),
        plan::contributions((op + by) as usize, ranks, residual_dim, k) == steps_later(
            plan::contributions(op as usize, ranks, residual_dim, k),
            by,
        ),
{
    let o = op as usize;
    let first = seq![Step::PreflightRoot { op: o }];
    let others = Task::PreflightContrib.by_ranks(o, 1, ranks);
    let zero = script::zero_partials(ranks, residual_dim);
    let root = seq![Step::BindThread { rank: 0 }, Step::RunMoeRoot { op: o }];
    let views = Task::RequireRouteView.by_ranks(o, 1, ranks);
    lemma_task_later(Task::PreflightContrib, op, by, 1, ranks);
    lemma_zero_partials_later(ranks, residual_dim, by);
    lemma_task_later(Task::RequireRouteView, op, by, 1, ranks);
    assert(steps_later(first, by) =~= seq![Step::PreflightRoot { op: (op + by) as usize }]);
    assert(steps_later(root, by) =~= seq![
        Step::BindThread { rank: 0 },
        Step::RunMoeRoot { op: (op + by) as usize },
    ]);
    lemma_concat_later(first, others, by);
    lemma_concat_later(first + others, zero, by);
    lemma_concat_later(first + others + zero, root, by);
    lemma_concat_later(first + others + zero + root, views, by);

    let route = seq![Step::BroadcastRoute { k }];
    let work = Task::RunMoeContrib.by_bound_ranks(o, 1, ranks);
    let sum = seq![Step::AllReduce { over: Buffers::Routed, count: residual_dim }];
    let add = Task::AddIntoResidual.by_bound_ranks(o, 0, ranks);
    lemma_task_later(Task::RunMoeContrib, op, by, 1, ranks);
    lemma_task_later(Task::AddIntoResidual, op, by, 0, ranks);
    assert(steps_later(route, by) =~= route);
    assert(steps_later(sum, by) =~= sum);
    lemma_concat_later(route, work, by);
    lemma_concat_later(route + work, sum, by);
    lemma_concat_later(route + work + sum, add, by);
}

/// The steps of a plan, its op `by` further on.
proof fn lemma_script_later(decided: Plan, op: int, by: int, ranks: int, residual_dim: usize)
    requires
        0 <= op,
        0 <= by,
        op + by <= usize::MAX,
    ensures
        decided.script((op + by) as usize, ranks, residual_dim) == steps_later(
            decided.script(op as usize, ranks, residual_dim),
            by,
        ),
{
    let o = op as usize;
    match decided {
        Plan::Replicated => {
            lemma_task_later(Task::Dispatch, op, by, 0, ranks);
        },
        Plan::AttentionTp { ending } => {
            lemma_task_later(Task::RunAttend, op, by, 0, ranks);
            if let Ending::Decided(f) = ending {
                lemma_finishes_later(f, op, by, ranks, residual_dim);
                lemma_concat_later(
                    plan::attend_shards(o, ranks),
                    plan::attend_finish(f, o, ranks, residual_dim),
                    by,
                );
            }
        },
        Plan::RankPartial { ending } => {
            let zero = script::zero_partials(ranks, residual_dim);
            lemma_zero_partials_later(ranks, residual_dim, by);
            lemma_task_later(Task::RunMoe, op, by, 0, ranks);
            lemma_concat_later(zero, Task::RunMoe.by_bound_ranks(o, 0, ranks), by);
            if let Ending::Decided(f) = ending {
                lemma_finishes_later(f, op, by, ranks, residual_dim);
                lemma_concat_later(
                    plan::rank_partials(o, ranks, residual_dim),
                    plan::moe_finish(f, o, ranks, residual_dim),
                    by,
                );
            }
        },
        Plan::RootRouted { k } => {
            let top = match k {
                Some(k) => k,
                None => 0,
            };
            lemma_root_routed_later(op, by, ranks, residual_dim, top);
            lemma_concat_later(
                plan::root_part(o, ranks, residual_dim),
                plan::contributions(o, ranks, residual_dim, top),
                by,
            );
        },
        _ => {
            assert(steps_later(Seq::empty(), by) =~= Seq::empty());
        },
    }
}

/// The steps of the ops done in two programs, one behind the other.
proof fn lemma_past_in_sequence(
    first: Seq<Plan>,
    second: Seq<Plan>,
    ranks: int,
    residual_dim: usize,
)
    requires
        first.len() + second.len() <= usize::MAX,
    ensures
        run::past_steps(first + second, ranks, residual_dim) == run::past_steps(
            first,
            ranks,
            residual_dim,
        ) + steps_later(run::past_steps(second, ranks, residual_dim), first.len() as int),
    decreases second.len(),
{
    let by = first.len() as int;
    let earlier = run::past_steps(first, ranks, residual_dim);
    if second.len() == 0 {
        assert(first + second =~= first);
        assert(earlier =~= earlier + steps_later(Seq::empty(), by));
    } else {
        let front = second.drop_last();
        let op = second.len() - 1;
        let last = second.last().script(op as usize, ranks, residual_dim);
        let done = run::past_steps(front, ranks, residual_dim);
        assert((first + second).drop_last() =~= first + front);
        lemma_past_in_sequence(first, front, ranks, residual_dim);
        lemma_script_later(second.last(), op, by, ranks, residual_dim);
        assert(steps_later(done + last, by) =~= steps_later(done, by) + steps_later(last, by));
        assert(earlier + steps_later(done, by) + steps_later(last, by) =~= earlier + (steps_later(
            done,
            by,
        ) + steps_later(last, by)));
    }
}

/// The next MoE op of two programs, one behind the other.
proof fn lemma_next_moe_in_sequence(first: Seq<OpKind>, second: Seq<OpKind>, op: int)
    requires
        0 <= op <= first.len(),
    ensures
        run::next_moe(first + second, op) == if run::next_moe(first, op) < first.len() {
            run::next_moe(first, op)
        } else {
            first.len() + run::next_moe(second, 0)
        },
    decreases first.len() - op,
{
    if op < first.len() {
        assert((first + second)[op] == first[op]);
        if first[op] != OpKind::Moe {
            lemma_next_moe_in_sequence(first, second, op + 1);
        }
    } else {
        lemma_next_moe_behind(first, second, 0);
    }
}

/// The next MoE op of a program that stands behind another.
proof fn lemma_next_moe_behind(first: Seq<OpKind>, second: Seq<OpKind>, op: int)
    requires
        0 <= op <= second.len(),
    ensures
        run::next_moe(first + second, first.len() + op) == first.len() + run::next_moe(second, op),
    decreases second.len() - op,
{
    if op < second.len() {
        assert((first + second)[first.len() + op] == second[op]);
        if second[op] != OpKind::Moe {
            lemma_next_moe_behind(first, second, op + 1);
        }
    }
}

/// The run of two programs, one behind the other, starts where the runs of the
/// two start.
pub proof fn sequences_start_with_the_first<E>(
    ranks: usize,
    residual_dim: usize,
    first: Seq<OpKind>,
    second: Seq<OpKind>,
)
    ensures
        RunState::<E>::start(ranks, residual_dim, first + second) == in_sequence(
            RunState::<E>::start(ranks, residual_dim, first),
            RunState::<E>::start(ranks, residual_dim, second),
        ),
{
    let whole = RunState::<E>::start(ranks, residual_dim, first + second);
    let a = RunState::<E>::start(ranks, residual_dim, first);
    let b = RunState::<E>::start(ranks, residual_dim, second);
    if ranks == 0 {
        lemma_next_moe(first, 0);
        lemma_next_moe(second, 0);
        lemma_next_moe_in_sequence(first, second, 0);
    }
    assert(whole.past =~= in_sequence(a, b).past);
}

/// While the first program runs, the run of both goes as the run of the first:
/// it asks for the same, admits the same, has performed the same, and is led on
/// alike. Where the first stops, both stop, and nothing of the second is run.
pub proof fn sequences_run_the_first<E>(
    first: RunState<E>,
    program: Seq<OpKind>,
    event: Event<E>,
)
    requires
        first.sound(),
        first.request() != Request::Complete,
        first.program.len() + program.len() <= usize::MAX,
    ensures
        ({
            let second = RunState::<E>::start(first.ranks, first.residual_dim, program);
            let both = in_sequence(first, second);
            &&& both.request() == first.request()
            &&& both.stop == first.stop
            &&& both.performed() == first.performed()
            &&& both.admits(event) <==> first.admits(event)
            &&& first.admits(event) ==> both.told(event) == in_sequence(first.told(event), second)
        }),
{
    let second = RunState::<E>::start(first.ranks, first.residual_dim, program);
    let both = in_sequence(first, second);
    assert(both.script() == first.script());
    if first.admits(event) {
        let after = first.told(event);
        events_keep_runs_sound(first, event);
        if after.past.len() > first.past.len() {
            let op = after.past.len() as int;
            if op < first.program.len() {
                assert((first.program + program)[op] == first.program[op]);
            } else {
                assert(after.past + second.past =~= after.past);
            }
        }
        assert(both.told(event) =~= in_sequence(after, second));
    }
}

/// Once the first program is complete, the run of both goes as the run of the
/// second, with the first's ops counted in: it asks for the same, admits the
/// same, has performed what both have, and is led on alike.
pub proof fn sequences_run_the_second<E>(
    first: RunState<E>,
    second: RunState<E>,
    event: Event<E>,
)
    requires
        first.sound(),
        second.sound(),
        first.request() == Request::Complete,
        first.ranks == second.ranks,
        first.residual_dim == second.residual_dim,
        first.program.len() + second.program.len() <= usize::MAX,
    ensures
        ({
            let both = in_sequence(first, second);
            let by = first.program.len() as int;
            &&& both.request() == request_later(second.request(), by)
            &&& both.stop == second.stop
            &&& both.performed() == first.performed() + steps_later(second.performed(), by)
            &&& both.admits(event) <==> second.admits(event)
            &&& second.admits(event) ==> both.told(event) == in_sequence(first, second.told(event))
        }),
{
    let both = in_sequence(first, second);
    let by = first.program.len() as int;
    let ranks = first.ranks as int;
    let dim = first.residual_dim;
    assert(first.past.len() == by);
    lemma_script_later(second.plan, second.past.len() as int, by, ranks, dim);
    assert(both.script() == steps_later(second.script(), by));
    assert(both.performed() == first.performed() + steps_later(second.performed(), by)) by {
        let earlier = run::past_steps(second.past, ranks, dim);
        let now = second.script().take(second.at);
        lemma_past_in_sequence(first.past, second.past, ranks, dim);
        assert(both.script().take(second.at) =~= steps_later(now, by));
        assert(first.script().take(first.at) =~= Seq::empty());
        assert(both.performed() =~= first.performed() + steps_later(earlier + now, by));
    }
    if second.admits(event) {
        let after = second.told(event);
        if after.past.len() > second.past.len() {
            let op = after.past.len() as int;
            assert(both.past.push(second.plan) =~= first.past + after.past);
            if op < second.program.len() {
                assert((first.program + second.program)[by + op] == second.program[op]);
            }
        }
        assert(both.told(event) =~= in_sequence(first, after));
    }
}

/// What events lead to, one event at a time.
proof fn lemma_told_all_sound<E>(state: RunState<E>, events: Seq<Event<E>>)
    requires
        state.sound(),
        state.admits_all(events),
    ensures
        state.told_all(events).sound(),
        state.told_all(events).ranks == state.ranks,
        state.told_all(events).residual_dim == state.residual_dim,
        state.told_all(events).program == state.program,
    decreases events.len(),
{
    if events.len() > 0 {
        lemma_told_all_sound(state, events.drop_last());
        events_keep_runs_sound(state.told_all(events.drop_last()), events.last());
    }
}

/// The events of the first program lead the run of both.
proof fn lemma_first_trace<E>(
    ranks: usize,
    residual_dim: usize,
    first: Seq<OpKind>,
    second: Seq<OpKind>,
    events: Seq<Event<E>>,
)
    requires
        first.len() + second.len() <= usize::MAX,
        RunState::<E>::start(ranks, residual_dim, first).admits_all(events),
    ensures
        ({
            let a = RunState::<E>::start(ranks, residual_dim, first);
            let b = RunState::<E>::start(ranks, residual_dim, second);
            let both = RunState::<E>::start(ranks, residual_dim, first + second);
            &&& both.admits_all(events)
            &&& both.told_all(events) == in_sequence(a.told_all(events), b)
        }),
    decreases events.len(),
{
    let a = RunState::<E>::start(ranks, residual_dim, first);
    starts_are_sound::<E>(ranks, residual_dim, first);
    sequences_start_with_the_first::<E>(ranks, residual_dim, first, second);
    if events.len() > 0 {
        let front = events.drop_last();
        lemma_first_trace(ranks, residual_dim, first, second, front);
        lemma_told_all_sound(a, front);
        sequences_run_the_first(a.told_all(front), second, events.last());
    }
}

/// Running two programs, one behind the other, is running the first and then,
/// only if it completes, the second: what the run of both has been told is what
/// the run of the first and then that of the second would have been told; it has
/// performed what they would have performed; and it ends as they would.
pub proof fn programs_run_in_sequence<E>(
    ranks: usize,
    residual_dim: usize,
    first: Seq<OpKind>,
    second: Seq<OpKind>,
    events: Seq<Event<E>>,
    further: Seq<Event<E>>,
)
    requires
        first.len() + second.len() <= usize::MAX,
        RunState::<E>::start(ranks, residual_dim, first).admits_all(events),
        RunState::<E>::start(ranks, residual_dim, second).admits_all(further),
    ensures
        ({
            let a = RunState::<E>::start(ranks, residual_dim, first).told_all(events);
            let b = RunState::<E>::start(ranks, residual_dim, second).told_all(further);
            let both = RunState::<E>::start(ranks, residual_dim, first + second);
            let by = first.len() as int;
            &&& a.request() != Request::Complete ==> {
                let after = both.told_all(events);
                &&& both.admits_all(events)
                &&& after.request() == a.request()
                &&& after.stop == a.stop
                &&& after.performed() == a.performed()
            }
            &&& a.request() == Request::Complete ==> {
                let after = both.told_all(events + further);
                &&& both.admits_all(events + further)
                &&& after.request() == request_later(b.request(), by)
                &&& after.stop == b.stop
                &&& after.performed() == a.performed() + steps_later(b.performed(), by)
            }
        }),
{
    let a0 = RunState::<E>::start(ranks, residual_dim, first);
    let b0 = RunState::<E>::start(ranks, residual_dim, second);
    let a = a0.told_all(events);
    let b = b0.told_all(further);
    starts_are_sound::<E>(ranks, residual_dim, first);
    starts_are_sound::<E>(ranks, residual_dim, second);
    lemma_told_all_sound(a0, events);
    lemma_told_all_sound(b0, further);
    lemma_first_trace(ranks, residual_dim, first, second, events);
    let any = Event::<E>::RootTopK(None);
    if a.request() == Request::Complete {
        lemma_second_trace(ranks, residual_dim, first, second, events, further);
        sequences_run_the_second(a, b, any);
    } else {
        sequences_run_the_first(a, second, any);
    }
}

/// The events of the second program lead the run of both on.
proof fn lemma_second_trace<E>(
    ranks: usize,
    residual_dim: usize,
    first: Seq<OpKind>,
    second: Seq<OpKind>,
    events: Seq<Event<E>>,
    further: Seq<Event<E>>,
)
    requires
        first.len() + second.len() <= usize::MAX,
        RunState::<E>::start(ranks, residual_dim, first).admits_all(events),
        RunState::<E>::start(ranks, residual_dim, first).told_all(events).request()
            == Request::Complete,
        RunState::<E>::start(ranks, residual_dim, second).admits_all(further),
    ensures
        ({
            let a = RunState::<E>::start(ranks, residual_dim, first).told_all(events);
            let b = RunState::<E>::start(ranks, residual_dim, second).told_all(further);
            let both = RunState::<E>::start(ranks, residual_dim, first + second);
            &&& both.admits_all(events + further)
            &&& both.told_all(events + further) == in_sequence(a, b)
        }),
    decreases further.len(),
{
    let a0 = RunState::<E>::start(ranks, residual_dim, first);
    let b0 = RunState::<E>::start(ranks, residual_dim, second);
    if further.len() == 0 {
        assert(events + further =~= events);
        lemma_first_trace(ranks, residual_dim, first, second, events);
    } else {
        let front = further.drop_last();
        starts_are_sound::<E>(ranks, residual_dim, first);
        starts_are_sound::<E>(ranks, residual_dim, second);
        lemma_told_all_sound(a0, events);
        lemma_told_all_sound(b0, front);
        lemma_second_trace(ranks, residual_dim, first, second, events, front);
        assert((events + further).drop_last() =~= events + front);
        assert((events + further).last() == further.last());
        sequences_run_the_second(a0.told_all(events), b0.told_all(front), further.last());
    }
}

} // verus!
