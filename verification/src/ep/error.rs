//! What the executor refuses to run, and how it says so.

use crate::decimal;
use crate::ep::route::MAX_EP_STACK_RANKS;
use vstd::prelude::*;

verus! {

/// Why a layer program was refused.
#[derive(Debug, Clone, Copy, PartialEq, Eq, Structural)]
pub enum EpError {
    /// Some ranks run attention tensor-parallel and some do not.
    MixedAttentionTp,
    /// A rank has no attention partial after its shard ran.
    AttentionPartialMissing,
    /// A rank has no active stream to zero its partial on.
    NoActiveStream { rank: usize },
    /// The ranks do not agree on one MoE combine.
    MixedCombineModes,
    /// More ranks than the root-routed combine stages.
    TooManyRanks { ranks: usize },
    /// The byte size of a partial does not fit a machine word.
    PartialBytesOverflow,
    /// A rank's partial is smaller than the residual.
    PartialTooSmall { rank: usize, bytes: usize, needed: usize },
    /// A rank has no route view.
    RouteViewMissing { rank: usize },
    /// The root has no execution contract.
    RootHasNoContract,
    /// The root's execution contract is for another combine.
    RootContractNotRootRouted,
    /// A rank's binding claims to be another rank.
    LocalRank { rank: usize, local_rank: usize },
    /// The root was bound for another number of ranks.
    RootRankCount { rank_count: usize, ranks: usize },
    /// The root routes to no expert.
    ZeroTopK,
    /// The root's hidden width is not the residual width.
    RootHidden { hidden: usize, residual_dim: usize },
    /// A rank other than the root has no execution contract.
    RankHasNoContract { rank: usize },
    /// A rank's contract, layer or dimensions differ from the root's.
    RankDisagrees { rank: usize },
    /// A rank was bound for another number of ranks.
    RankRankCount { rank: usize, rank_count: usize, ranks: usize },
    /// A rank has lost its route view since the root ran.
    RouteViewLost { rank: usize },
}

impl EpError {
    /// The message of a refusal.
    pub open spec fn text(self) -> Seq<char> {
        match self {
            EpError::MixedAttentionTp => "run_layer_program_ep: mixed attention-TP admission across ranks"@,
            EpError::AttentionPartialMissing => "run_layer_program_ep: attention TP partial missing"@,
            EpError::NoActiveStream { rank } => {
                "run_layer_program_ep: device "@
                    + decimal::numeral(rank as nat)
                    + " has no active_stream (call ensure_rank_streams)"@
            },
            EpError::MixedCombineModes => "run_layer_program_ep: mixed EP MoE combine modes across ranks; refusing (no fallback from root-routed to rank partials)"@,
            EpError::TooManyRanks { ranks } => {
                "run_layer_program_ep: root-routed EP rank count "@
                    + decimal::numeral(ranks as nat)
                    + " exceeds host-stack bound "@
                    + decimal::numeral(MAX_EP_STACK_RANKS as nat)
            },
            EpError::PartialBytesOverflow => "run_layer_program_ep: residual_dim*4 partial byte count overflow"@,
            EpError::PartialTooSmall { rank, bytes, needed } => {
                "run_layer_program_ep: root-routed EP rank "@
                    + decimal::numeral(rank as nat)
                    + " partial has "@
                    + decimal::numeral(bytes as nat)
                    + " bytes, needs "@
                    + decimal::numeral(needed as nat)
            },
            EpError::RouteViewMissing { rank } => {
                "run_layer_program_ep: root-routed EP rank "@
                    + decimal::numeral(rank as nat)
                    + " is missing its route view"@
            },
            EpError::RootHasNoContract => "run_layer_program_ep: root-routed EP root has no execution contract"@,
            EpError::RootContractNotRootRouted => "run_layer_program_ep: root-routed EP root contract is not root-routed"@,
            EpError::LocalRank { rank, local_rank } => {
                "run_layer_program_ep: root-routed EP rank "@
                    + decimal::numeral(rank as nat)
                    + " binding reports local_rank "@
                    + decimal::numeral(local_rank as nat)
            },
            EpError::RootRankCount { rank_count, ranks } => {
                "run_layer_program_ep: root-routed EP root rank_count "@
                    + decimal::numeral(rank_count as nat)
                    + " != mesh "@
                    + decimal::numeral(ranks as nat)
            },
            EpError::ZeroTopK => "run_layer_program_ep: root-routed EP requires k > 0"@,
            EpError::RootHidden { hidden, residual_dim } => {
                "run_layer_program_ep: root-routed EP root hidden "@
                    + decimal::numeral(hidden as nat)
                    + " != residual_dim "@
                    + decimal::numeral(residual_dim as nat)
            },
            EpError::RankHasNoContract { rank } => {
                "run_layer_program_ep: root-routed EP rank "@
                    + decimal::numeral(rank as nat)
                    + " has no execution contract"@
            },
            EpError::RankDisagrees { rank } => {
                "run_layer_program_ep: root-routed EP rank "@
                    + decimal::numeral(rank as nat)
                    + " disagrees with the root plan/dimensions"@
            },
            EpError::RankRankCount { rank, rank_count, ranks } => {
                "run_layer_program_ep: root-routed EP rank "@
                    + decimal::numeral(rank as nat)
                    + " rank_count "@
                    + decimal::numeral(rank_count as nat)
                    + " != mesh "@
                    + decimal::numeral(ranks as nat)
            },
            EpError::RouteViewLost { rank } => {
                "run_layer_program_ep: root-routed EP rank "@
                    + decimal::numeral(rank as nat)
                    + " lost its route view after root"@
            },
        }
    }

    /// The message of a refusal.
    pub fn message(&self) -> (message: String)
        ensures
            message@ == self.text(),
    {
        match *self {
            EpError::MixedAttentionTp => "run_layer_program_ep: mixed attention-TP admission across ranks".to_owned(),
            EpError::AttentionPartialMissing => "run_layer_program_ep: attention TP partial missing".to_owned(),
            EpError::NoActiveStream { rank } => {
                let mut text: String = "run_layer_program_ep: device ".to_owned();
                decimal::push_numeral(&mut text, rank);
                text.append(" has no active_stream (call ensure_rank_streams)");
                text
            },
            EpError::MixedCombineModes => "run_layer_program_ep: mixed EP MoE combine modes across ranks; refusing (no fallback from root-routed to rank partials)".to_owned(),
            EpError::TooManyRanks { ranks } => {
                let mut text: String = "run_layer_program_ep: root-routed EP rank count ".to_owned();
                decimal::push_numeral(&mut text, ranks);
                text.append(" exceeds host-stack bound ");
                decimal::push_numeral(&mut text, MAX_EP_STACK_RANKS);
                text
            },
            EpError::PartialBytesOverflow => "run_layer_program_ep: residual_dim*4 partial byte count overflow".to_owned(),
            EpError::PartialTooSmall { rank, bytes, needed } => {
                let mut text: String = "run_layer_program_ep: root-routed EP rank ".to_owned();
                decimal::push_numeral(&mut text, rank);
                text.append(" partial has ");
                decimal::push_numeral(&mut text, bytes);
                text.append(" bytes, needs ");
                decimal::push_numeral(&mut text, needed);
                text
            },
            EpError::RouteViewMissing { rank } => {
                let mut text: String = "run_layer_program_ep: root-routed EP rank ".to_owned();
                decimal::push_numeral(&mut text, rank);
                text.append(" is missing its route view");
                text
            },
            EpError::RootHasNoContract => "run_layer_program_ep: root-routed EP root has no execution contract".to_owned(),
            EpError::RootContractNotRootRouted => "run_layer_program_ep: root-routed EP root contract is not root-routed".to_owned(),
            EpError::LocalRank { rank, local_rank } => {
                let mut text: String = "run_layer_program_ep: root-routed EP rank ".to_owned();
                decimal::push_numeral(&mut text, rank);
                text.append(" binding reports local_rank ");
                decimal::push_numeral(&mut text, local_rank);
                text
            },
            EpError::RootRankCount { rank_count, ranks } => {
                let mut text: String = "run_layer_program_ep: root-routed EP root rank_count ".to_owned();
                decimal::push_numeral(&mut text, rank_count);
                text.append(" != mesh ");
                decimal::push_numeral(&mut text, ranks);
                text
            },
            EpError::ZeroTopK => "run_layer_program_ep: root-routed EP requires k > 0".to_owned(),
            EpError::RootHidden { hidden, residual_dim } => {
                let mut text: String = "run_layer_program_ep: root-routed EP root hidden ".to_owned();
                decimal::push_numeral(&mut text, hidden);
                text.append(" != residual_dim ");
                decimal::push_numeral(&mut text, residual_dim);
                text
            },
            EpError::RankHasNoContract { rank } => {
                let mut text: String = "run_layer_program_ep: root-routed EP rank ".to_owned();
                decimal::push_numeral(&mut text, rank);
                text.append(" has no execution contract");
                text
            },
            EpError::RankDisagrees { rank } => {
                let mut text: String = "run_layer_program_ep: root-routed EP rank ".to_owned();
                decimal::push_numeral(&mut text, rank);
                text.append(" disagrees with the root plan/dimensions");
                text
            },
            EpError::RankRankCount { rank, rank_count, ranks } => {
                let mut text: String = "run_layer_program_ep: root-routed EP rank ".to_owned();
                decimal::push_numeral(&mut text, rank);
                text.append(" rank_count ");
                decimal::push_numeral(&mut text, rank_count);
                text.append(" != mesh ");
                decimal::push_numeral(&mut text, ranks);
                text
            },
            EpError::RouteViewLost { rank } => {
                let mut text: String = "run_layer_program_ep: root-routed EP rank ".to_owned();
                decimal::push_numeral(&mut text, rank);
                text.append(" lost its route view after root");
                text
            },
        }
    }
}

/// What each refusal says, for every number that it names.
pub proof fn refusals_say_what_is_at_fault(
    rank: usize,
    ranks: usize,
    bytes: usize,
    needed: usize,
    local_rank: usize,
    rank_count: usize,
    hidden: usize,
    residual_dim: usize,
)
    ensures
        EpError::MixedAttentionTp.text()
            == "run_layer_program_ep: mixed attention-TP admission across ranks"@,
        EpError::AttentionPartialMissing.text()
            == "run_layer_program_ep: attention TP partial missing"@,
        (EpError::NoActiveStream { rank }).text()
            == "run_layer_program_ep: device "@ + decimal::numeral(rank as nat) + " has no active_stream (call ensure_rank_streams)"@,
        EpError::MixedCombineModes.text()
            == "run_layer_program_ep: mixed EP MoE combine modes across ranks; refusing (no fallback from root-routed to rank partials)"@,
        (EpError::TooManyRanks { ranks }).text()
            == "run_layer_program_ep: root-routed EP rank count "@ + decimal::numeral(ranks as nat) + " exceeds host-stack bound "@ + "64"@,
        EpError::PartialBytesOverflow.text()
            == "run_layer_program_ep: residual_dim*4 partial byte count overflow"@,
        (EpError::PartialTooSmall { rank, bytes, needed }).text()
            == "run_layer_program_ep: root-routed EP rank "@ + decimal::numeral(rank as nat) + " partial has "@ + decimal::numeral(bytes as nat) + " bytes, needs "@ + decimal::numeral(needed as nat),
        (EpError::RouteViewMissing { rank }).text()
            == "run_layer_program_ep: root-routed EP rank "@ + decimal::numeral(rank as nat) + " is missing its route view"@,
        EpError::RootHasNoContract.text()
            == "run_layer_program_ep: root-routed EP root has no execution contract"@,
        EpError::RootContractNotRootRouted.text()
            == "run_layer_program_ep: root-routed EP root contract is not root-routed"@,
        (EpError::LocalRank { rank, local_rank }).text()
            == "run_layer_program_ep: root-routed EP rank "@ + decimal::numeral(rank as nat) + " binding reports local_rank "@ + decimal::numeral(local_rank as nat),
        (EpError::RootRankCount { rank_count, ranks }).text()
            == "run_layer_program_ep: root-routed EP root rank_count "@ + decimal::numeral(rank_count as nat) + " != mesh "@ + decimal::numeral(ranks as nat),
        EpError::ZeroTopK.text()
            == "run_layer_program_ep: root-routed EP requires k > 0"@,
        (EpError::RootHidden { hidden, residual_dim }).text()
            == "run_layer_program_ep: root-routed EP root hidden "@ + decimal::numeral(hidden as nat) + " != residual_dim "@ + decimal::numeral(residual_dim as nat),
        (EpError::RankHasNoContract { rank }).text()
            == "run_layer_program_ep: root-routed EP rank "@ + decimal::numeral(rank as nat) + " has no execution contract"@,
        (EpError::RankDisagrees { rank }).text()
            == "run_layer_program_ep: root-routed EP rank "@ + decimal::numeral(rank as nat) + " disagrees with the root plan/dimensions"@,
        (EpError::RankRankCount { rank, rank_count, ranks }).text()
            == "run_layer_program_ep: root-routed EP rank "@ + decimal::numeral(rank as nat) + " rank_count "@ + decimal::numeral(rank_count as nat) + " != mesh "@ + decimal::numeral(ranks as nat),
        (EpError::RouteViewLost { rank }).text()
            == "run_layer_program_ep: root-routed EP rank "@ + decimal::numeral(rank as nat) + " lost its route view after root"@,
{
    reveal_strlit("64");
    reveal_with_fuel(decimal::numeral, 2);
    assert(decimal::numeral(64) =~= "64"@);
}

} // verus!
