use hipfire::decimal::push_numeral;
use hipfire::ep::error::EpError;
use hipfire::ep::plan::{tp_peer_hc3_admitted, tp_peer_hc4_admitted};
use hipfire::ep::reduce::{logs_selection, path_of_lease, DecodeArMode, ReducePath};
use hipfire::ep::route::{
    check_partials, check_rank, check_root, check_size, partial_bytes, RouteView,
    MAX_EP_STACK_RANKS,
};
use hipfire::ep::script::{ensure_rank_streams, Step};

fn numeral(n: usize) -> String {
    let mut text = String::from("<");
    push_numeral(&mut text, n);
    text
}

#[test]
fn numerals_are_decimal() {
    assert_eq!(numeral(0), "<0");
    assert_eq!(numeral(9), "<9");
    assert_eq!(numeral(10), "<10");
    assert_eq!(numeral(9075), "<9075");
    assert_eq!(numeral(1_234_567_890), "<1234567890");
    assert_eq!(numeral(usize::MAX), format!("<{}", usize::MAX));
}

#[test]
fn streams_are_created_where_there_are_none() {
    assert_eq!(
        ensure_rank_streams(&[true, false, false]),
        vec![
            Step::BindThread { rank: 0 },
            Step::BindThread { rank: 1 },
            Step::CreateStream { rank: 1 },
            Step::BindThread { rank: 2 },
            Step::CreateStream { rank: 2 },
        ]
    );
    assert!(ensure_rank_streams(&[]).is_empty());
}

#[test]
fn stream_setup_is_idempotent() {
    let mut active = vec![false, true, false];
    for step in ensure_rank_streams(&active) {
        if let Step::CreateStream { rank } = step {
            assert!(!active[rank]);
            active[rank] = true;
        }
    }
    assert_eq!(active, vec![true; 3]);
    assert_eq!(
        ensure_rank_streams(&active),
        vec![
            Step::BindThread { rank: 0 },
            Step::BindThread { rank: 1 },
            Step::BindThread { rank: 2 },
        ]
    );
}

#[test]
fn failed_set_up_keeps_earlier_streams() {
    let active = [false, true, false];
    let steps = ensure_rank_streams(&active);
    for j in 0..steps.len() {
        let mut left = active;
        for step in &steps[..j] {
            if let Step::CreateStream { rank } = *step {
                left[rank] = true;
            }
        }
        let failed = match steps[j] {
            Step::BindThread { rank } | Step::CreateStream { rank } => rank,
            other => panic!("{other:?}"),
        };
        for rank in 0..3 {
            assert_eq!(left[rank], rank < failed || active[rank]);
        }
    }
}

#[test]
fn setting_selects_the_mode() {
    assert_eq!(DecodeArMode::from_setting(Some("1")), DecodeArMode::LegacyPeer);
    assert_eq!(DecodeArMode::from_setting(Some("0")), DecodeArMode::Rccl);
    for other in ["", "2", "10", "01", " 1", "true"] {
        assert_eq!(DecodeArMode::from_setting(Some(other)), DecodeArMode::Canonical);
    }
    assert_eq!(DecodeArMode::from_setting(None), DecodeArMode::Canonical);
}

#[test]
fn mode_and_mesh_select_the_path() {
    for mode in [
        DecodeArMode::Canonical,
        DecodeArMode::LegacyPeer,
        DecodeArMode::Rccl,
    ] {
        for peer_access in [false, true] {
            assert_eq!(
                mode.select_path(true, peer_access),
                ReducePath::LeasedPeerRooted
            );
        }
    }
    assert_eq!(
        DecodeArMode::Canonical.select_path(false, true),
        ReducePath::PeerRooted
    );
    assert_eq!(
        DecodeArMode::Canonical.select_path(false, false),
        ReducePath::Rccl
    );
    assert_eq!(
        DecodeArMode::LegacyPeer.select_path(false, true),
        ReducePath::Peer
    );
    assert_eq!(
        DecodeArMode::LegacyPeer.select_path(false, false),
        ReducePath::Peer
    );
    assert_eq!(
        DecodeArMode::Rccl.select_path(false, true),
        ReducePath::Rccl
    );
    assert_eq!(
        DecodeArMode::Rccl.select_path(false, false),
        ReducePath::Rccl
    );
}

#[test]
fn lease_fixes_the_path() {
    assert_eq!(path_of_lease(true), Some(ReducePath::LeasedPeerRooted));
    assert_eq!(path_of_lease(false), None);
}

#[test]
fn selection_is_logged_once() {
    assert!(logs_selection(false, false));
    assert!(!logs_selection(false, true));
    assert!(!logs_selection(true, false));
    assert!(!logs_selection(true, true));
    let mut logged = false;
    let mut lines = Vec::new();
    for (i, leased) in [true, true, false, true, false, false].into_iter().enumerate() {
        if logs_selection(leased, logged) {
            lines.push(i);
            logged = true;
        }
    }
    assert_eq!(lines, vec![2]);
}

#[test]
fn log_names_the_path() {
    assert_eq!(
        DecodeArMode::Canonical.log_line(true),
        "EP decode all-reduce: canonical rooted-peer (fixed left fold over ranks; \
         HIPFIRE_EP_PEER_ALLREDUCE_DECODE=1 selects legacy unrooted peer, \
         =0 selects RCCL)"
    );
    assert_eq!(
        DecodeArMode::Canonical.log_line(false),
        "EP decode all-reduce: RCCL (canonical rooted-peer unavailable: peer access disabled)"
    );
    for peer_access in [false, true] {
        assert_eq!(
            DecodeArMode::LegacyPeer.log_line(peer_access),
            "EP decode all-reduce: legacy unrooted peer (HIPFIRE_EP_PEER_ALLREDUCE_DECODE=1)"
        );
        assert_eq!(
            DecodeArMode::Rccl.log_line(peer_access),
            "EP decode all-reduce: RCCL (HIPFIRE_EP_PEER_ALLREDUCE_DECODE=0)"
        );
    }
}

#[test]
fn refusals_say_what_is_wrong() {
    let cases = [
        (
            EpError::MixedAttentionTp,
            "mixed attention-TP admission across ranks",
        ),
        (
            EpError::AttentionPartialMissing,
            "attention TP partial missing",
        ),
        (
            EpError::NoActiveStream { rank: 3 },
            "device 3 has no active_stream (call ensure_rank_streams)",
        ),
        (
            EpError::MixedCombineModes,
            "mixed EP MoE combine modes across ranks; refusing (no fallback from root-routed to rank partials)",
        ),
        (
            EpError::TooManyRanks { ranks: 65 },
            "root-routed EP rank count 65 exceeds host-stack bound 64",
        ),
        (
            EpError::PartialBytesOverflow,
            "residual_dim*4 partial byte count overflow",
        ),
        (
            EpError::PartialTooSmall { rank: 2, bytes: 100, needed: 128 },
            "root-routed EP rank 2 partial has 100 bytes, needs 128",
        ),
        (
            EpError::RouteViewMissing { rank: 0 },
            "root-routed EP rank 0 is missing its route view",
        ),
        (
            EpError::RouteViewMissing { rank: 12 },
            "root-routed EP rank 12 is missing its route view",
        ),
        (
            EpError::RootHasNoContract,
            "root-routed EP root has no execution contract",
        ),
        (
            EpError::RootContractNotRootRouted,
            "root-routed EP root contract is not root-routed",
        ),
        (
            EpError::LocalRank { rank: 1, local_rank: 2 },
            "root-routed EP rank 1 binding reports local_rank 2",
        ),
        (
            EpError::RootRankCount { rank_count: 4, ranks: 2 },
            "root-routed EP root rank_count 4 != mesh 2",
        ),
        (EpError::ZeroTopK, "root-routed EP requires k > 0"),
        (
            EpError::RootHidden { hidden: 64, residual_dim: 32 },
            "root-routed EP root hidden 64 != residual_dim 32",
        ),
        (
            EpError::RankHasNoContract { rank: 1 },
            "root-routed EP rank 1 has no execution contract",
        ),
        (
            EpError::RankDisagrees { rank: 1 },
            "root-routed EP rank 1 disagrees with the root plan/dimensions",
        ),
        (
            EpError::RankRankCount { rank: 1, rank_count: 8, ranks: 2 },
            "root-routed EP rank 1 rank_count 8 != mesh 2",
        ),
        (
            EpError::RouteViewLost { rank: 0 },
            "root-routed EP rank 0 lost its route view after root",
        ),
    ];
    for (error, text) in cases {
        assert_eq!(error.message(), format!("run_layer_program_ep: {text}"));
    }
}

fn view(rank: usize, ranks: usize) -> RouteView {
    RouteView {
        contract_id: Some(7),
        root_routed: Some(true),
        local_rank: rank,
        rank_count: ranks,
        layer: 5,
        hidden: 32,
        k: 8,
        n_exp: 128,
    }
}

/// All checks in turn, as a run makes them.
fn check_agreement(
    bytes: &[usize],
    views: &[Option<RouteView>],
    residual_dim: usize,
) -> Result<(), EpError> {
    check_partials(bytes, residual_dim)?;
    let root = check_root(&views[0], views.len(), residual_dim)?;
    for (rank, view) in views.iter().enumerate().skip(1) {
        check_rank(view, &root, rank, views.len())?;
    }
    Ok(())
}

fn views(ranks: usize) -> Vec<Option<RouteView>> {
    (0..ranks).map(|r| Some(view(r, ranks))).collect()
}

#[test]
fn sizes_are_bounded() {
    assert_eq!(MAX_EP_STACK_RANKS, 64);
    assert_eq!(check_size(64, 32), Ok(128));
    assert_eq!(check_size(65, 32), Err(EpError::TooManyRanks { ranks: 65 }));
    assert_eq!(
        check_size(2, usize::MAX / 4 + 1),
        Err(EpError::PartialBytesOverflow)
    );
    assert_eq!(check_size(2, usize::MAX / 4), Ok(usize::MAX / 4 * 4));
    assert_eq!(partial_bytes(32), Some(128));
    assert_eq!(partial_bytes(usize::MAX / 4 + 1), None);
    assert_eq!(
        check_size(65, usize::MAX),
        Err(EpError::TooManyRanks { ranks: 65 })
    );
}

#[test]
fn agreeing_ranks_are_accepted() {
    assert_eq!(check_agreement(&[128, 200, 128], &views(3), 32), Ok(()));
    assert_eq!(check_agreement(&[128], &views(1), 32), Ok(()));
    // A contract that is not at hand is not held against the root.
    let mut v = views(2);
    v[0] = Some(RouteView { root_routed: None, ..view(0, 2) });
    v[1] = Some(RouteView { root_routed: Some(false), ..view(1, 2) });
    assert_eq!(check_agreement(&[128, 128], &v, 32), Ok(()));
}

#[test]
fn root_is_checked() {
    let check = |root: Option<RouteView>| {
        let mut v = views(2);
        v[0] = root;
        check_agreement(&[128, 128], &v, 32)
    };
    assert_eq!(check(None), Err(EpError::RouteViewMissing { rank: 0 }));
    assert_eq!(
        check(Some(RouteView { contract_id: None, root_routed: Some(false), ..view(0, 2) })),
        Err(EpError::RootHasNoContract)
    );
    assert_eq!(
        check(Some(RouteView { root_routed: Some(false), local_rank: 1, ..view(0, 2) })),
        Err(EpError::RootContractNotRootRouted)
    );
    assert_eq!(
        check(Some(RouteView { local_rank: 1, rank_count: 3, ..view(0, 2) })),
        Err(EpError::LocalRank { rank: 0, local_rank: 1 })
    );
    assert_eq!(
        check(Some(RouteView { rank_count: 3, k: 0, ..view(0, 2) })),
        Err(EpError::RootRankCount { rank_count: 3, ranks: 2 })
    );
    assert_eq!(
        check(Some(RouteView { k: 0, hidden: 31, ..view(0, 2) })),
        Err(EpError::ZeroTopK)
    );
    assert_eq!(
        check(Some(RouteView { hidden: 31, ..view(0, 2) })),
        Err(EpError::RootHidden { hidden: 31, residual_dim: 32 })
    );
}

#[test]
fn other_ranks_are_checked_in_order() {
    let check = |rank: usize, v1: Option<RouteView>| {
        let mut v = views(3);
        v[rank] = v1;
        check_agreement(&[128, 128, 128], &v, 32)
    };
    assert_eq!(check(1, None), Err(EpError::RouteViewMissing { rank: 1 }));
    assert_eq!(
        check(2, Some(RouteView { contract_id: None, ..view(2, 3) })),
        Err(EpError::RankHasNoContract { rank: 2 })
    );
    for odd in [
        RouteView { contract_id: Some(8), ..view(2, 3) },
        RouteView { layer: 6, ..view(2, 3) },
        RouteView { hidden: 64, ..view(2, 3) },
        RouteView { k: 4, ..view(2, 3) },
        RouteView { n_exp: 64, local_rank: 0, ..view(2, 3) },
    ] {
        assert_eq!(check(2, Some(odd)), Err(EpError::RankDisagrees { rank: 2 }));
    }
    assert_eq!(
        check(1, Some(RouteView { local_rank: 2, rank_count: 9, ..view(1, 3) })),
        Err(EpError::LocalRank { rank: 1, local_rank: 2 })
    );
    assert_eq!(
        check(1, Some(RouteView { rank_count: 9, ..view(1, 3) })),
        Err(EpError::RankRankCount { rank: 1, rank_count: 9, ranks: 3 })
    );

    // The lowest rank is named, partials come before views, the root before the
    // others.
    let mut v = views(3);
    v[1] = None;
    v[2] = None;
    assert_eq!(
        check_agreement(&[128, 128, 128], &v, 32),
        Err(EpError::RouteViewMissing { rank: 1 })
    );
    assert_eq!(
        check_agreement(&[128, 127, 0], &v, 32),
        Err(EpError::PartialTooSmall { rank: 1, bytes: 127, needed: 128 })
    );
    v[0] = Some(RouteView { k: 0, ..view(0, 3) });
    assert_eq!(
        check_agreement(&[128, 128, 128], &v, 32),
        Err(EpError::ZeroTopK)
    );
}

#[test]
fn peer_paths_are_admitted_by_size_and_support() {
    assert!(tp_peer_hc3_admitted(3, true, &[true; 3]));
    assert!(tp_peer_hc4_admitted(4, true, &[true; 4]));
    for ranks in [0, 1, 2, 4, 5] {
        assert!(!tp_peer_hc3_admitted(ranks, true, &vec![true; ranks]));
    }
    for ranks in [0, 1, 2, 3, 5] {
        assert!(!tp_peer_hc4_admitted(ranks, true, &vec![true; ranks]));
    }
    assert!(!tp_peer_hc3_admitted(3, false, &[true; 3]));
    assert!(!tp_peer_hc4_admitted(4, false, &[true; 4]));
    assert!(!tp_peer_hc3_admitted(3, true, &[true, false, true]));
    assert!(!tp_peer_hc4_admitted(4, true, &[true, true, true, false]));
}
