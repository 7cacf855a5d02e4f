use hipfire::ep::error::EpError;
use hipfire::ep::plan::{CombineMode, OpKind, Question};
use hipfire::ep::route::RouteView;
use hipfire::ep::run::{run_layer_program_ep, LayerRun, Outcome, Request, Stop};
use hipfire::ep::script::{Buffers, Step};

const DIM: usize = 32;

/// What a mesh would report.
struct Mesh {
    ranks: usize,
    attention_tp: Vec<bool>,
    modes: Vec<CombineMode>,
    partial_bytes: Vec<usize>,
    views: Vec<Option<RouteView>>,
    peer_access: bool,
    gfx1201: bool,
    hc: bool,
    root_k: Option<usize>,
    missing: Option<Step>,
    failing: Option<Step>,
}

impl Mesh {
    fn new(ranks: usize) -> Mesh {
        Mesh {
            ranks,
            attention_tp: vec![false; ranks],
            modes: vec![CombineMode::RankPartial; ranks],
            partial_bytes: vec![DIM * 4; ranks],
            views: (0..ranks)
                .map(|rank| {
                    Some(RouteView {
                        contract_id: Some(1),
                        root_routed: Some(true),
                        local_rank: rank,
                        rank_count: ranks,
                        layer: 0,
                        hidden: DIM,
                        k: 8,
                        n_exp: 16,
                    })
                })
                .collect(),
            peer_access: true,
            gfx1201: true,
            hc: false,
            root_k: Some(8),
            missing: None,
            failing: None,
        }
    }

    fn root_routed(ranks: usize) -> Mesh {
        let mut mesh = Mesh::new(ranks);
        mesh.modes = vec![CombineMode::RootRoutedPartial; ranks];
        mesh
    }

    fn answer(&self, question: Question, run: &mut LayerRun<u32>) {
        match question {
            Question::AttentionTp => run.answer_attention_tp(&self.attention_tp),
            Question::CombineModes => run.answer_combine_modes(&self.modes),
            Question::PartialSizes => run.answer_partial_sizes(&self.partial_bytes),
            Question::RouteView { rank } => run.answer_route_view(&self.views[rank]),
            Question::PeerDevices => {
                run.answer_peer_devices(self.peer_access, &vec![self.gfx1201; self.ranks])
            }
            Question::PeerHc3 | Question::PeerHc4 => {
                run.answer_peer_bindings(&vec![self.hc; self.ranks])
            }
            Question::RootTopK => run.answer_root_top_k(self.root_k),
        }
    }

    /// Runs a program; returns the steps done and why it ended early.
    fn run(&self, program: &[OpKind]) -> (Vec<Step>, Option<Stop<u32>>) {
        let (steps, _, stop) = self.run_asked(program);
        (steps, stop)
    }

    /// The questions that a program asks.
    fn asked(&self, program: &[OpKind]) -> Vec<Question> {
        self.run_asked(program).1
    }

    fn run_asked(&self, program: &[OpKind]) -> (Vec<Step>, Vec<Question>, Option<Stop<u32>>) {
        let mut run: LayerRun<u32> = run_layer_program_ep(self.ranks, DIM, program.to_vec());
        let mut done = Vec::new();
        let mut asked = Vec::new();
        loop {
            match run.request() {
                Request::Perform(step) => {
                    if self.missing == Some(step) {
                        run.report(Outcome::Missing);
                    } else if self.failing == Some(step) {
                        run.report(Outcome::Failed(42));
                    } else {
                        done.push(step);
                        run.report(Outcome::Done);
                    }
                }
                Request::Answer(question) => {
                    asked.push(question);
                    self.answer(question, &mut run);
                }
                Request::Complete => return (done, asked, None),
                Request::Stopped => return (done, asked, run.into_stop()),
            }
        }
    }

    fn completes(&self, program: &[OpKind]) -> Vec<Step> {
        let (steps, stop) = self.run(program);
        assert!(stop.is_none(), "{stop:?}");
        steps
    }

    fn refuses(&self, program: &[OpKind]) -> (Vec<Step>, EpError) {
        match self.run(program) {
            (steps, Some(Stop::Refused(error))) => (steps, error),
            other => panic!("not refused: {other:?}"),
        }
    }
}

fn replicated(op: usize, ranks: usize) -> Vec<Step> {
    (0..ranks)
        .flat_map(|rank| [Step::BindThread { rank }, Step::Dispatch { op, rank }])
        .collect()
}

fn bound(ranks: std::ops::Range<usize>, step: impl Fn(usize) -> Step) -> Vec<Step> {
    ranks
        .flat_map(|rank| [Step::BindThread { rank }, step(rank)])
        .collect()
}

fn zeroed(ranks: usize) -> Vec<Step> {
    (0..ranks)
        .flat_map(|rank| {
            [
                Step::BindThread { rank },
                Step::RequireStream { rank },
                Step::ZeroPartial { rank, count: DIM },
            ]
        })
        .collect()
}

#[test]
fn other_ops_are_replicated() {
    let steps = Mesh::new(2).completes(&[OpKind::Other, OpKind::Other]);
    assert_eq!(steps, [replicated(0, 2), replicated(1, 2)].concat());
}

#[test]
fn empty_program_and_empty_mesh_are_complete_at_once() {
    assert!(Mesh::new(2).completes(&[]).is_empty());
    assert!(Mesh::new(0)
        .completes(&[OpKind::Attend, OpKind::Other])
        .is_empty());
}

#[test]
fn combine_on_an_empty_mesh_is_refused_for_its_bytes() {
    let mut run: LayerRun<u32> =
        run_layer_program_ep(0, usize::MAX / 2, vec![OpKind::Other, OpKind::Moe]);
    assert_eq!(run.request(), Request::Answer(Question::CombineModes));
    run.answer_combine_modes(&[]);
    assert!(matches!(
        run.into_stop(),
        Some(Stop::Refused(EpError::PartialBytesOverflow))
    ));
}

#[test]
fn attention_is_replicated_unless_asked_otherwise() {
    assert_eq!(
        Mesh::new(3).completes(&[OpKind::Attend]),
        replicated(0, 3)
    );
}

#[test]
fn mixed_attention_is_refused() {
    let mut mesh = Mesh::new(3);
    mesh.attention_tp = vec![true, false, true];
    let (steps, error) = mesh.refuses(&[OpKind::Other, OpKind::Attend]);
    assert_eq!(steps, replicated(0, 3));
    assert_eq!(error, EpError::MixedAttentionTp);
}

#[test]
fn attention_shards_are_summed() {
    let mut mesh = Mesh::new(2);
    mesh.attention_tp = vec![true; 2];
    assert_eq!(
        mesh.completes(&[OpKind::Attend]),
        [
            bound(0..2, |rank| Step::RunAttend { op: 0, rank }),
            vec![
                Step::RequireAttentionPartial { rank: 0 },
                Step::RequireAttentionPartial { rank: 1 },
                Step::AllReduce { over: Buffers::Attention, count: DIM },
            ],
            bound(0..2, |rank| Step::FinishAttend { rank }),
        ]
        .concat()
    );
}

#[test]
fn attention_shards_are_read_by_peers() {
    for ranks in [3, 4] {
        let mut mesh = Mesh::new(ranks);
        mesh.attention_tp = vec![true; ranks];
        mesh.hc = true;
        let finish = |rank| {
            if ranks == 3 {
                Step::FinishAttendPeerHc3 { rank }
            } else {
                Step::FinishAttendPeerHc4 { rank }
            }
        };
        let mut want = bound(0..ranks, |rank| Step::RunAttend { op: 0, rank });
        want.extend((0..ranks).map(|rank| Step::RequireAttentionPartial { rank }));
        want.push(Step::Barrier { before: Buffers::Attention });
        want.extend(bound(0..ranks, finish));
        assert_eq!(mesh.completes(&[OpKind::Attend]), want);
    }
}

#[test]
fn missing_attention_partial_is_refused() {
    let mut mesh = Mesh::new(2);
    mesh.attention_tp = vec![true; 2];
    mesh.missing = Some(Step::RequireAttentionPartial { rank: 1 });
    let (steps, error) = mesh.refuses(&[OpKind::Attend]);
    assert_eq!(error, EpError::AttentionPartialMissing);
    assert_eq!(
        steps.last(),
        Some(&Step::RequireAttentionPartial { rank: 0 })
    );
}

#[test]
fn rank_partials_are_summed() {
    let mesh = Mesh::new(2);
    assert_eq!(
        mesh.completes(&[OpKind::Moe]),
        [
            zeroed(2),
            vec![
                Step::BindThread { rank: 0 },
                Step::RunMoe { op: 0, rank: 0, skip_shared: false },
                Step::BindThread { rank: 1 },
                Step::RunMoe { op: 0, rank: 1, skip_shared: true },
                Step::AllReduce { over: Buffers::Routed, count: DIM },
            ],
            bound(0..2, |rank| Step::AddIntoResidual { rank }),
        ]
        .concat()
    );
}

#[test]
fn rank_partials_are_read_by_peers() {
    for ranks in [3, 4] {
        let mut mesh = Mesh::new(ranks);
        mesh.hc = true;
        let finish = |rank| {
            if ranks == 3 {
                Step::FinishMoePeerHc3 { rank }
            } else {
                Step::FinishMoePeerHc4 { rank }
            }
        };
        let steps = mesh.completes(&[OpKind::Moe]);
        let mut end = vec![Step::Barrier { before: Buffers::Routed }];
        end.extend(bound(0..ranks, finish));
        assert!(steps.ends_with(&end));
        // Without peer access the sum takes the peers' place.
        mesh.peer_access = false;
        let mut end = vec![Step::AllReduce { over: Buffers::Routed, count: DIM }];
        end.extend(bound(0..ranks, |rank| Step::AddIntoResidual { rank }));
        assert!(mesh.completes(&[OpKind::Moe]).ends_with(&end));
    }
}

#[test]
fn missing_stream_is_refused() {
    let mut mesh = Mesh::new(2);
    mesh.missing = Some(Step::RequireStream { rank: 1 });
    let (steps, error) = mesh.refuses(&[OpKind::Moe]);
    assert_eq!(error, EpError::NoActiveStream { rank: 1 });
    assert_eq!(
        steps,
        vec![
            Step::BindThread { rank: 0 },
            Step::RequireStream { rank: 0 },
            Step::ZeroPartial { rank: 0, count: DIM },
            Step::BindThread { rank: 1 },
        ]
    );
}

#[test]
fn mixed_combines_are_refused() {
    let mut mesh = Mesh::new(2);
    mesh.modes[1] = CombineMode::RootRoutedPartial;
    let (steps, error) = mesh.refuses(&[OpKind::Moe]);
    assert!(steps.is_empty());
    assert_eq!(error, EpError::MixedCombineModes);
}

#[test]
fn root_routed_runs_in_full() {
    let steps = Mesh::root_routed(3).completes(&[OpKind::Other, OpKind::Moe]);
    let want = [
        replicated(0, 3),
        vec![
            Step::PreflightRoot { op: 1 },
            Step::PreflightContrib { op: 1, rank: 1 },
            Step::PreflightContrib { op: 1, rank: 2 },
        ],
        zeroed(3),
        vec![
            Step::BindThread { rank: 0 },
            Step::RunMoeRoot { op: 1 },
            Step::RequireRouteView { rank: 1 },
            Step::RequireRouteView { rank: 2 },
            Step::BroadcastRoute { k: 8 },
        ],
        bound(1..3, |rank| Step::RunMoeContrib { op: 1, rank }),
        vec![Step::AllReduce { over: Buffers::Routed, count: DIM }],
        bound(0..3, |rank| Step::AddIntoResidual { rank }),
    ]
    .concat();
    assert_eq!(steps, want);
}

#[test]
fn root_alone_runs_root_routed() {
    let steps = Mesh::root_routed(1).completes(&[OpKind::Moe]);
    assert_eq!(steps[0], Step::PreflightRoot { op: 0 });
    assert_eq!(steps.len(), 1 + 3 + 2 + 1 + 1 + 2);
}

#[test]
fn too_many_ranks_are_refused_before_any_work() {
    assert!(!Mesh::root_routed(64).completes(&[OpKind::Moe]).is_empty());
    let (steps, error) = Mesh::root_routed(65).refuses(&[OpKind::Moe]);
    assert!(steps.is_empty());
    assert_eq!(error, EpError::TooManyRanks { ranks: 65 });
}

#[test]
fn overflowing_partial_is_refused() {
    let mut run: LayerRun<u32> =
        run_layer_program_ep(2, usize::MAX / 2, vec![OpKind::Moe]);
    assert_eq!(run.request(), Request::Answer(Question::CombineModes));
    run.answer_combine_modes(&[CombineMode::RootRoutedPartial; 2]);
    assert_eq!(run.request(), Request::Stopped);
    assert!(matches!(
        run.into_stop(),
        Some(Stop::Refused(EpError::PartialBytesOverflow))
    ));
}

#[test]
fn disagreement_is_refused_before_any_partial_is_zeroed() {
    let mut mesh = Mesh::root_routed(2);
    mesh.partial_bytes[1] = 127;
    let (steps, error) = mesh.refuses(&[OpKind::Moe]);
    assert!(steps.is_empty());
    assert_eq!(
        error,
        EpError::PartialTooSmall { rank: 1, bytes: 127, needed: 128 }
    );

    let mut mesh = Mesh::root_routed(2);
    mesh.views[1] = None;
    let (steps, error) = mesh.refuses(&[OpKind::Moe]);
    assert!(steps.is_empty());
    assert_eq!(error, EpError::RouteViewMissing { rank: 1 });
}

#[test]
fn failed_preflight_leaves_all_partials_untouched() {
    let mut mesh = Mesh::root_routed(3);
    mesh.failing = Some(Step::PreflightContrib { op: 0, rank: 2 });
    let (steps, stop) = mesh.run(&[OpKind::Moe]);
    assert!(matches!(stop, Some(Stop::Failed(42))));
    assert_eq!(
        steps,
        vec![
            Step::PreflightRoot { op: 0 },
            Step::PreflightContrib { op: 0, rank: 1 },
        ]
    );
}

#[test]
fn lost_route_view_is_refused() {
    let mut mesh = Mesh::root_routed(3);
    mesh.missing = Some(Step::RequireRouteView { rank: 2 });
    let (steps, error) = mesh.refuses(&[OpKind::Moe]);
    assert_eq!(error, EpError::RouteViewLost { rank: 2 });
    assert_eq!(steps.last(), Some(&Step::RequireRouteView { rank: 1 }));

    let mut mesh = Mesh::root_routed(3);
    mesh.root_k = None;
    let (steps, error) = mesh.refuses(&[OpKind::Moe]);
    assert_eq!(error, EpError::RouteViewLost { rank: 0 });
    assert_eq!(steps.last(), Some(&Step::RequireRouteView { rank: 2 }));
}

#[test]
fn broadcast_takes_the_k_that_the_root_reports_then() {
    let mut mesh = Mesh::root_routed(2);
    mesh.root_k = Some(6);
    let steps = mesh.completes(&[OpKind::Moe]);
    assert!(steps.contains(&Step::BroadcastRoute { k: 6 }));
    assert!(!steps.contains(&Step::BroadcastRoute { k: 8 }));
}

#[test]
fn failure_is_final() {
    // Whichever step fails, the run stops there and falls back on nothing.
    let program = [OpKind::Attend, OpKind::Moe, OpKind::Other];
    let whole = Mesh::root_routed(2).completes(&program);
    for (i, step) in whole.iter().enumerate() {
        if whole[..i].contains(step) {
            continue;
        }
        let mut mesh = Mesh::root_routed(2);
        mesh.failing = Some(*step);
        let (steps, stop) = mesh.run(&program);
        assert!(matches!(stop, Some(Stop::Failed(42))));
        assert_eq!(steps, whole[..i]);
    }
}

#[test]
fn every_rank_takes_part_once() {
    for mesh in [Mesh::new(4), Mesh::root_routed(4)] {
        let steps = mesh.completes(&[OpKind::Moe]);
        let count = |f: &dyn Fn(&Step) -> bool| steps.iter().filter(|s| f(s)).count();
        for r in 0..4 {
            assert_eq!(count(&|s| *s == Step::AddIntoResidual { rank: r }), 1);
            assert_eq!(
                count(&|s| *s == Step::ZeroPartial { rank: r, count: DIM }),
                1
            );
            assert_eq!(
                count(&|s| match *s {
                    Step::RunMoe { rank, .. } | Step::RunMoeContrib { rank, .. } => rank == r,
                    Step::RunMoeRoot { .. } => r == 0,
                    _ => false,
                }),
                1
            );
        }
        let shared = count(&|s| {
            matches!(
                s,
                Step::RunMoe { skip_shared: false, .. } | Step::RunMoeRoot { .. }
            )
        });
        assert_eq!(shared, 1);
        assert_eq!(count(&|s| matches!(s, Step::AllReduce { .. })), 1);
    }
}

#[test]
fn devices_are_bound_before_work() {
    let mut mesh = Mesh::new(3);
    mesh.attention_tp = vec![true; 3];
    let steps = mesh.completes(&[OpKind::Attend, OpKind::Moe, OpKind::Other]);
    for (i, step) in steps.iter().enumerate() {
        let rank = match *step {
            Step::Dispatch { rank, .. }
            | Step::RunAttend { rank, .. }
            | Step::RunMoe { rank, .. }
            | Step::FinishAttend { rank }
            | Step::AddIntoResidual { rank } => rank,
            Step::ZeroPartial { rank, .. } => {
                assert_eq!(steps[i - 1], Step::RequireStream { rank });
                assert_eq!(steps[i - 2], Step::BindThread { rank });
                continue;
            }
            _ => continue,
        };
        assert_eq!(steps[i - 1], Step::BindThread { rank });
    }
}

fn later(step: Step, by: usize) -> Step {
    match step {
        Step::Dispatch { op, rank } => Step::Dispatch { op: op + by, rank },
        Step::RunAttend { op, rank } => Step::RunAttend { op: op + by, rank },
        Step::RunMoe { op, rank, skip_shared } => Step::RunMoe { op: op + by, rank, skip_shared },
        Step::PreflightRoot { op } => Step::PreflightRoot { op: op + by },
        Step::PreflightContrib { op, rank } => Step::PreflightContrib { op: op + by, rank },
        Step::RunMoeRoot { op } => Step::RunMoeRoot { op: op + by },
        Step::RunMoeContrib { op, rank } => Step::RunMoeContrib { op: op + by, rank },
        other => other,
    }
}

#[test]
fn programs_run_in_sequence() {
    let first = [OpKind::Attend, OpKind::Moe];
    let second = [OpKind::Moe, OpKind::Other];
    let both = [first, second].concat();
    for mut mesh in [Mesh::new(3), Mesh::root_routed(3)] {
        let mut want = mesh.completes(&first);
        want.extend(mesh.completes(&second).into_iter().map(|step| later(step, 2)));
        assert_eq!(mesh.completes(&both), want);
        // Where the first stops, nothing of the second is run.
        mesh.failing = Some(Step::AddIntoResidual { rank: 1 });
        let (steps, stop) = mesh.run(&both);
        assert!(matches!(stop, Some(Stop::Failed(42))));
        assert_eq!(steps, mesh.run(&first).0);
    }
}

#[test]
fn sizes_are_settled_before_views() {
    // A partial that is too small is refused with no rank asked for its view.
    let mut mesh = Mesh::root_routed(3);
    mesh.partial_bytes[2] = 127;
    mesh.views = vec![None; 3];
    assert_eq!(
        mesh.asked(&[OpKind::Moe]),
        vec![Question::CombineModes, Question::PartialSizes]
    );
    let (steps, error) = mesh.refuses(&[OpKind::Moe]);
    assert!(steps.is_empty());
    assert_eq!(
        error,
        EpError::PartialTooSmall { rank: 2, bytes: 127, needed: 128 }
    );
    // So are too many ranks, with no size asked either.
    assert_eq!(
        Mesh::root_routed(65).asked(&[OpKind::Moe]),
        vec![Question::CombineModes]
    );
}

#[test]
fn views_are_asked_up_to_the_first_refused() {
    let mut mesh = Mesh::root_routed(4);
    assert_eq!(
        mesh.asked(&[OpKind::Moe]),
        vec![
            Question::CombineModes,
            Question::PartialSizes,
            Question::RouteView { rank: 0 },
            Question::RouteView { rank: 1 },
            Question::RouteView { rank: 2 },
            Question::RouteView { rank: 3 },
            Question::RootTopK,
        ]
    );
    mesh.views[1] = None;
    mesh.views[2] = None;
    assert_eq!(
        mesh.asked(&[OpKind::Moe]),
        vec![
            Question::CombineModes,
            Question::PartialSizes,
            Question::RouteView { rank: 0 },
            Question::RouteView { rank: 1 },
        ]
    );
    assert_eq!(
        mesh.refuses(&[OpKind::Moe]).1,
        EpError::RouteViewMissing { rank: 1 }
    );
}

#[test]
fn bindings_are_asked_for_open_peer_paths_only() {
    let asked = |ranks: usize, peer_access: bool, gfx1201: bool| {
        let mut mesh = Mesh::new(ranks);
        mesh.peer_access = peer_access;
        mesh.gfx1201 = gfx1201;
        mesh.asked(&[OpKind::Moe])
    };
    let modes = Question::CombineModes;
    let devices = Question::PeerDevices;
    assert_eq!(asked(2, true, true), vec![modes]);
    assert_eq!(asked(5, true, true), vec![modes]);
    assert_eq!(asked(3, true, true), vec![modes, devices, Question::PeerHc3]);
    assert_eq!(asked(4, true, true), vec![modes, devices, Question::PeerHc4]);
    assert_eq!(asked(3, false, true), vec![modes, devices]);
    assert_eq!(asked(4, true, false), vec![modes, devices]);
}

#[test]
fn reports_may_end_early() {
    let mut run: LayerRun<u32> = run_layer_program_ep(4, DIM, vec![OpKind::Attend]);
    run.answer_attention_tp(&[false, true]);
    assert!(matches!(
        run.into_stop(),
        Some(Stop::Refused(EpError::MixedAttentionTp))
    ));
    let mut run: LayerRun<u32> = run_layer_program_ep(4, DIM, vec![OpKind::Moe]);
    run.answer_combine_modes(&[CombineMode::RankPartial, CombineMode::RootRoutedPartial]);
    assert!(matches!(
        run.into_stop(),
        Some(Stop::Refused(EpError::MixedCombineModes))
    ));
}

#[test]
fn missing_stream_is_named_however_wide_the_residual() {
    let mut run: LayerRun<u32> = run_layer_program_ep(2, usize::MAX, vec![OpKind::Moe]);
    run.answer_combine_modes(&[CombineMode::RankPartial; 2]);
    assert_eq!(run.request(), Request::Perform(Step::BindThread { rank: 0 }));
    run.report(Outcome::Done);
    assert_eq!(run.request(), Request::Perform(Step::RequireStream { rank: 0 }));
    run.report(Outcome::Missing);
    assert!(matches!(
        run.into_stop(),
        Some(Stop::Refused(EpError::NoActiveStream { rank: 0 }))
    ));
}
