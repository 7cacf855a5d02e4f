//! Which transport sums the ranks' partials on a decode step.
//!
//! The default is the rooted peer reduce: every rank sees the same
//! left-associated sum over the ranks in index order, however many there are.
//! The two other transports are reached by explicit choice only, or, for RCCL,
//! where there is no peer access.

use vstd::prelude::*;

verus! {

/// The transport that the operator asked for.
#[derive(Debug, Clone, Copy, PartialEq, Eq, Structural)]
pub enum DecodeArMode {
    /// The rooted peer reduce.
    Canonical,
    /// The unrooted peer reduce, kept as a diagnostic.
    LegacyPeer,
    /// RCCL.
    Rccl,
}

/// The transport that a reduce takes.
#[derive(Debug, Clone, Copy, PartialEq, Eq, Structural)]
pub enum ReducePath {
    /// The rooted peer reduce in the scratch of a batch's lease.
    LeasedPeerRooted,
    /// The rooted peer reduce.
    PeerRooted,
    /// The unrooted peer reduce.
    Peer,
    /// RCCL.
    Rccl,
}

impl DecodeArMode {
    /// The mode that the setting `HIPFIRE_EP_PEER_ALLREDUCE_DECODE` selects:
    /// `1` the unrooted peer reduce, `0` RCCL, anything else, or nothing, the
    /// rooted peer reduce.
    pub open spec fn selected_by(setting: Option<Seq<char>>) -> DecodeArMode {
        if setting == Some(seq!['1']) {
            DecodeArMode::LegacyPeer
        } else if setting == Some(seq!['0']) {
            DecodeArMode::Rccl
        } else {
            DecodeArMode::Canonical
        }
    }

    /// Reads the setting.
    pub fn from_setting(setting: Option<&str>) -> (mode: DecodeArMode)
        ensures
            mode == DecodeArMode::selected_by(
                match setting {
                    Some(value) => Some(value@),
                    None => None,
                },
            ),
    {
        match setting {
            Some(value) => {
                if value.unicode_len() == 1 {
                    let c: char = value.get_char(0);
                    proof {
                        assert(value@ =~= seq![c]);
                        assert(seq!['0'][0] == '0' && seq!['1'][0] == '1' && seq![c][0] == c);
                    }
                    if c == '1' {
                        DecodeArMode::LegacyPeer
                    } else if c == '0' {
                        DecodeArMode::Rccl
                    } else {
                        DecodeArMode::Canonical
                    }
                } else {
                    proof {
                        assert(seq!['0'].len() == 1 && seq!['1'].len() == 1);
                    }
                    DecodeArMode::Canonical
                }
            },
            None => DecodeArMode::Canonical,
        }
    }

    /// The path of a reduce: a lease fixes it; without one the mode decides, and
    /// the rooted peer reduce gives way to RCCL where peer access is off.
    pub open spec fn path(self, leased: bool, peer_access: bool) -> ReducePath {
        if leased {
            ReducePath::LeasedPeerRooted
        } else if self == DecodeArMode::LegacyPeer {
            ReducePath::Peer
        } else if self == DecodeArMode::Canonical && peer_access {
            ReducePath::PeerRooted
        } else {
            ReducePath::Rccl
        }
    }

    /// Selects the path of a reduce.
    pub fn select_path(&self, leased: bool, peer_access: bool) -> (path: ReducePath)
        ensures
            path == self.path(leased, peer_access),
    {
        if let Some(fixed) = path_of_lease(leased) {
            return fixed;
        }
        match *self {
            DecodeArMode::LegacyPeer => ReducePath::Peer,
            DecodeArMode::Canonical => if peer_access {
                ReducePath::PeerRooted
            } else {
                ReducePath::Rccl
            },
            DecodeArMode::Rccl => ReducePath::Rccl,
        }
    }

    /// What the selection log says of the active path.
    pub open spec fn label(self, peer_access: bool) -> Seq<char> {
        match self {
            DecodeArMode::Canonical => if peer_access {
                "canonical rooted-peer (fixed left fold over ranks; HIPFIRE_EP_PEER_ALLREDUCE_DECODE=1 selects legacy unrooted peer, =0 selects RCCL)"@
            } else {
                "RCCL (canonical rooted-peer unavailable: peer access disabled)"@
            },
            DecodeArMode::LegacyPeer => "legacy unrooted peer (HIPFIRE_EP_PEER_ALLREDUCE_DECODE=1)"@,
            DecodeArMode::Rccl => "RCCL (HIPFIRE_EP_PEER_ALLREDUCE_DECODE=0)"@,
        }
    }

    /// The line of the selection log.
    pub fn log_line(&self, peer_access: bool) -> (line: String)
        ensures
            line@ == "EP decode all-reduce: "@ + self.label(peer_access),
    {
        let mut line: String = "EP decode all-reduce: ".to_owned();
        match *self {
            DecodeArMode::Canonical => {
                if peer_access {
                    line.append(
                        "canonical rooted-peer (fixed left fold over ranks; HIPFIRE_EP_PEER_ALLREDUCE_DECODE=1 selects legacy unrooted peer, =0 selects RCCL)",
                    );
                } else {
                    line.append("RCCL (canonical rooted-peer unavailable: peer access disabled)");
                }
            },
            DecodeArMode::LegacyPeer => {
                line.append("legacy unrooted peer (HIPFIRE_EP_PEER_ALLREDUCE_DECODE=1)");
            },
            DecodeArMode::Rccl => {
                line.append("RCCL (HIPFIRE_EP_PEER_ALLREDUCE_DECODE=0)");
            },
        }
        line
    }
}

/// The path that a lease fixes. Where it fixes one, no mode is consulted: all
/// would come to the same.
pub fn path_of_lease(leased: bool) -> (path: Option<ReducePath>)
    ensures
        path == if leased {
            Some(ReducePath::LeasedPeerRooted)
        } else {
            None
        },
        path matches Some(fixed) ==> forall|mode: DecodeArMode, peer_access: bool|
            #[trigger] mode.path(leased, peer_access) == fixed,
{
    if leased {
        Some(ReducePath::LeasedPeerRooted)
    } else {
        None
    }
}

/// Whether a reduce writes the line of the selection log: without a lease, and
/// where the line has not been written before.
pub fn logs_selection(leased: bool, logged: bool) -> (log: bool)
    ensures
        log == writes_line(leased, logged),
{
    !leased && !logged
}

/// A reduce without a lease writes the line, unless it has been written.
pub open spec fn writes_line(leased: bool, logged: bool) -> bool {
    !leased && !logged
}

/// Whether the line has been written once the first `count` of a process's
/// reduces are done; `leased` says which of them have a lease.
pub open spec fn logged_after(leased: Seq<bool>, count: int) -> bool
    decreases count,
{
    if count <= 0 {
        false
    } else {
        let before = logged_after(leased, count - 1);
        before || writes_line(leased[count - 1], before)
    }
}

/// The line has been written exactly where one of the reduces had no lease.
proof fn lemma_logged_after(leased: Seq<bool>, count: int)
    requires
        0 <= count <= leased.len(),
    ensures
        logged_after(leased, count) <==> exists|i: int| 0 <= i < count && !(#[trigger] leased[i]),
    decreases count,
{
    if count > 0 {
        lemma_logged_after(leased, count - 1);
        if logged_after(leased, count) && !logged_after(leased, count - 1) {
            assert(!leased[count - 1]);
        }
    }
}

/// The line of the selection log is written exactly once, by the first reduce
/// without a lease: by that reduce and no other, and by none where all have a
/// lease.
pub proof fn selection_is_logged_once(leased: Seq<bool>, i: int)
    requires
        0 <= i < leased.len(),
    ensures
        writes_line(leased[i], logged_after(leased, i)) <==> !leased[i] && forall|j: int|
            0 <= j < i ==> #[trigger] leased[j],
        writes_line(leased[i], logged_after(leased, i)) ==> forall|j: int|
            0 <= j < leased.len() && j != i ==> !writes_line(
                leased[j],
                #[trigger] logged_after(leased, j),
            ),
        logged_after(leased, leased.len() as int) <==> exists|j: int|
            0 <= j < leased.len() && !(#[trigger] leased[j]),
{
    lemma_logged_after(leased, i);
    lemma_logged_after(leased, leased.len() as int);
    assert forall|j: int|
        0 <= j < leased.len() && j != i && writes_line(
            leased[i],
            logged_after(leased, i),
        ) implies !writes_line(leased[j], #[trigger] logged_after(leased, j)) by {
        lemma_logged_after(leased, j);
    }
}

/// The rooted peer reduce is the default: another transport is taken only where
/// the setting asks for it, or, for RCCL, where peer access is off. A lease
/// always takes the rooted peer reduce.
pub proof fn other_transports_are_opt_in(
    setting: Option<Seq<char>>,
    leased: bool,
    peer_access: bool,
)
    ensures
        ({
            let path = DecodeArMode::selected_by(setting).path(leased, peer_access);
            &&& leased <==> path == ReducePath::LeasedPeerRooted
            &&& path == ReducePath::Peer ==> setting == Some(seq!['1'])
            &&& path == ReducePath::Rccl ==> setting == Some(seq!['0']) || !peer_access
            &&& path == ReducePath::PeerRooted ==> peer_access
            &&& !leased && peer_access && setting is None ==> path == ReducePath::PeerRooted
        }),
{
}

/// The setting `1` selects the unrooted peer reduce and `0` RCCL; every other
/// setting, and none, the rooted peer reduce.
pub proof fn settings_select_their_mode(setting: Option<Seq<char>>)
    ensures
        DecodeArMode::selected_by(setting) == DecodeArMode::LegacyPeer <==> setting is Some
            && setting->0.len() == 1 && setting->0[0] == '1',
        DecodeArMode::selected_by(setting) == DecodeArMode::Rccl <==> setting is Some
            && setting->0.len() == 1 && setting->0[0] == '0',
{
    if let Some(s) = setting {
        if s.len() == 1 && s[0] == '1' {
            assert(s =~= seq!['1']);
        }
        if s.len() == 1 && s[0] == '0' {
            assert(s =~= seq!['0']);
        }
        assert(seq!['1'].len() == 1 && seq!['1'][0] == '1');
        assert(seq!['0'].len() == 1 && seq!['0'][0] == '0');
    }
}

/// A lease fixes the rooted peer reduce whatever the mode. Without one the mode
/// decides: the unrooted peer reduce and RCCL are taken whenever they are the
/// mode, and the rooted peer reduce with peer access, RCCL standing in for it
/// without.
pub proof fn modes_take_their_path(mode: DecodeArMode, peer_access: bool)
    ensures
        mode.path(true, peer_access) == ReducePath::LeasedPeerRooted,
        DecodeArMode::LegacyPeer.path(false, peer_access) == ReducePath::Peer,
        DecodeArMode::Rccl.path(false, peer_access) == ReducePath::Rccl,
        DecodeArMode::Canonical.path(false, true) == ReducePath::PeerRooted,
        DecodeArMode::Canonical.path(false, false) == ReducePath::Rccl,
{
}

/// The log names the path that a reduce without a lease takes.
pub proof fn log_names_the_path_taken(mode: DecodeArMode, peer_access: bool)
    ensures
        mode.path(false, peer_access) == ReducePath::PeerRooted ==> mode.label(peer_access)
            == "canonical rooted-peer (fixed left fold over ranks; HIPFIRE_EP_PEER_ALLREDUCE_DECODE=1 selects legacy unrooted peer, =0 selects RCCL)"@,
        mode.path(false, peer_access) == ReducePath::Peer ==> mode.label(peer_access)
            == "legacy unrooted peer (HIPFIRE_EP_PEER_ALLREDUCE_DECODE=1)"@,
        mode.path(false, peer_access) == ReducePath::Rccl ==> mode.label(peer_access) == if mode
            == DecodeArMode::Canonical {
            "RCCL (canonical rooted-peer unavailable: peer access disabled)"@
        } else {
            "RCCL (HIPFIRE_EP_PEER_ALLREDUCE_DECODE=0)"@
        },
{
}

/// The line is due exactly without a lease and before it has been written.
pub proof fn line_is_due_once_and_without_a_lease(leased: bool, logged: bool)
    ensures
        writes_line(leased, logged) <==> !leased && !logged,
{
}

} // verus!
