//! Whether a child room of a space is accessible to the requester of a space
//! hierarchy.

use vstd::prelude::*;

verus! {

/// Who asks for a space hierarchy.
#[derive(Clone, Copy, Debug, PartialEq, Eq, Structural)]
pub enum Requester {
    /// A local user.
    User,
    /// A remote server, over federation.
    Server,
}

/// A room's join rule, as far as the access check reads it.
#[derive(Clone, Copy, Debug, PartialEq, Eq, Structural)]
pub enum JoinRuleKind {
    /// Anyone may join.
    Public,
    /// Anyone may knock.
    Knock,
    /// Members of the allowed rooms may join; anyone may knock.
    KnockRestricted,
    /// Members of the allowed rooms may join.
    Restricted,
    /// Invite only, private, or a rule the server does not know.
    Other,
}

/// Whether a child room is accessible: a server must pass the room's ACL; a
/// user who is joined to or invited into the room may see it; otherwise the
/// join rule decides — public and knock rooms are visible, a restricted room
/// is visible when it lists no allowed rooms or the requester is in one of
/// them (`in_allowed` answers that per allowed room, in order).
pub open spec fn child_accessible(requester: Requester, acl_allows: bool, joined_or_invited: bool, rule: JoinRuleKind, in_allowed: Seq<bool>) -> bool {
    &&& requester == Requester::Server ==> acl_allows
    &&& {
        ||| requester == Requester::User && joined_or_invited
        ||| rule == JoinRuleKind::Public
        ||| rule == JoinRuleKind::Knock
        ||| rule == JoinRuleKind::KnockRestricted
        ||| rule == JoinRuleKind::Restricted && (in_allowed.len() == 0 || in_allowed.contains(true))
    }
}

/// With the given answers, checks if a room is accessible. `acl_allows` is
/// only read for a server, `joined_or_invited` only for a user; `in_allowed`
/// holds, for each allowed room of a restricted room in order, whether the
/// requester is in it (the answers may stop at the first `true`).
pub fn is_accessible_child(requester: Requester, acl_allows: bool, joined_or_invited: bool, rule: JoinRuleKind, in_allowed: &[bool]) -> (r: bool)
    ensures
        r == child_accessible(requester, acl_allows, joined_or_invited, rule, in_allowed@),
{
    if requester == Requester::Server && !acl_allows {
        return false;
    }
    if requester == Requester::User && joined_or_invited {
        return true;
    }
    match rule {
        JoinRuleKind::Public | JoinRuleKind::Knock | JoinRuleKind::KnockRestricted => true,
        JoinRuleKind::Restricted => {
            if in_allowed.len() == 0 {
                return true;
            }
            let mut i: usize = 0;
            while i < in_allowed.len()
                invariant
                    rule == JoinRuleKind::Restricted,
                    requester == Requester::Server ==> acl_allows,
                    in_allowed@.len() > 0,
                    i <= in_allowed@.len(),
                    forall|j: int| 0 <= j < i ==> !in_allowed@[j],
                decreases in_allowed@.len() - i,
            {
                if in_allowed[i] {
                    proof {
                        assert(in_allowed@[i as int]);
                        assert(in_allowed@.contains(true));
                    }
                    return true;
                }
                i = i + 1;
            }
            false
        },
        JoinRuleKind::Other => false,
    }
}

/// What the space-hierarchy cache held for a room.
#[derive(Clone, Copy, Debug, PartialEq, Eq, Structural)]
pub enum CacheProbe {
    /// The lookup failed; `not_found` when the room simply has no entry.
    Failed { not_found: bool },
    /// An entry: whether it has not yet expired, and whether it holds a
    /// summary (a negative entry holds none).
    Found { live: bool, positive: bool },
}

/// How a local summary lookup proceeds after probing the cache.
#[derive(Clone, Copy, Debug, PartialEq, Eq, Structural)]
pub enum LocalStep {
    /// The cache failed for a reason other than a missing entry: report it.
    Fail,
    /// A live summary is cached: answer from it, subject to the access check.
    FromCache,
    /// Compute the summary from local state.
    Compute,
}

/// The step a cache probe leads to: a failure other than a missing entry is
/// reported, a live positive entry is served, and anything else (a missing,
/// expired or negative entry) is recomputed locally.
pub open spec fn local_step_of(probe: CacheProbe) -> LocalStep {
    match probe {
        CacheProbe::Failed { not_found } => if not_found { LocalStep::Compute } else { LocalStep::Fail },
        CacheProbe::Found { live, positive } => if live && positive { LocalStep::FromCache } else { LocalStep::Compute },
    }
}

/// Decide how a local summary lookup proceeds from its cache probe.
pub fn local_step(probe: CacheProbe) -> (r: LocalStep)
    ensures
        r == local_step_of(probe),
{
    match probe {
        CacheProbe::Failed { not_found } => if not_found { LocalStep::Compute } else { LocalStep::Fail },
        CacheProbe::Found { live, positive } => if live && positive { LocalStep::FromCache } else { LocalStep::Compute },
    }
}

/// The outcome of computing a room's summary locally.
#[derive(Clone, Copy, Debug, PartialEq, Eq, Structural)]
pub enum SummaryOutcome {
    /// The room is accessible; whether its summary can be stored (a summary
    /// with a join rule the server cannot name cannot).
    Accessible { serializable: bool },
    /// The room is not accessible to the requester.
    Inaccessible,
    /// The computation failed.
    Failed,
}

/// What a computed summary leaves in the cache.
#[derive(Clone, Copy, Debug, PartialEq, Eq, Structural)]
pub enum CacheWrite {
    /// Store the summary.
    Summary,
    /// Store a negative entry.
    NoSummary,
    /// Leave the cache alone.
    Nothing,
}

/// The cache write after a local computation: an accessible summary is
/// stored when it can be, as a negative entry when it cannot; an inaccessible
/// room is stored as a negative entry; a failure writes nothing.
pub open spec fn cache_write_of(outcome: SummaryOutcome) -> CacheWrite {
    match outcome {
        SummaryOutcome::Accessible { serializable } => if serializable { CacheWrite::Summary } else { CacheWrite::NoSummary },
        SummaryOutcome::Inaccessible => CacheWrite::NoSummary,
        SummaryOutcome::Failed => CacheWrite::Nothing,
    }
}

/// Decide what a local summary computation writes to the cache.
pub fn cache_write(outcome: SummaryOutcome) -> (r: CacheWrite)
    ensures
        r == cache_write_of(outcome),
{
    match outcome {
        SummaryOutcome::Accessible { serializable } => if serializable { CacheWrite::Summary } else { CacheWrite::NoSummary },
        SummaryOutcome::Inaccessible => CacheWrite::NoSummary,
        SummaryOutcome::Failed => CacheWrite::Nothing,
    }
}

/// What follows a failed local lookup.
#[derive(Clone, Copy, Debug, PartialEq, Eq, Structural)]
pub enum Fallback {
    /// The failure is not a missing room: report it.
    Propagate,
    /// The room is not known locally and no server was offered to ask.
    NotFoundLocally,
    /// Ask the offered servers over federation.
    AskFederation,
}

/// Decide what follows a failed local lookup: only a missing room falls back
/// to federation, and only when there are servers to ask.
pub fn local_fallback(not_found: bool, via_empty: bool) -> (r: Fallback)
    ensures
        r == (if !not_found {
            Fallback::Propagate
        } else if via_empty {
            Fallback::NotFoundLocally
        } else {
            Fallback::AskFederation
        }),
{
    if !not_found {
        Fallback::Propagate
    } else if via_empty {
        Fallback::NotFoundLocally
    } else {
        Fallback::AskFederation
    }
}

/// The largest count a summary's member count can carry: `2^53 - 1`.
pub const MAX_MEMBER_COUNT: u64 = 9007199254740991;

/// The joined-member count a summary reports: the count itself, or zero when
/// it exceeds what the summary can carry.
pub fn summary_member_count(joined: u64) -> (r: u64)
    ensures
        r == (if joined <= MAX_MEMBER_COUNT { joined } else { 0 }),
{
    if joined <= MAX_MEMBER_COUNT {
        joined
    } else {
        0
    }
}

/// Whether a room's `m.space.child` event lists a child: its content parses,
/// names at least one server to join via, and its state key is a room id.
pub fn is_listed_child(content_parses: bool, via_count: usize, state_key_is_room_id: bool) -> (r: bool)
    ensures
        r == (content_parses && via_count > 0 && state_key_is_room_id),
{
    content_parses && via_count > 0 && state_key_is_room_id
}

/// A child of a space, as its `m.space.child` event states it.
#[derive(Clone, Debug)]
pub struct SpaceChild {
    /// The child room.
    pub room_id: String,
    /// Whether the space suggests the child.
    pub suggested: bool,
    /// The servers to join the child via.
    pub via: Vec<String>,
}

/// The children of a space that a listing shows, in order: all of them, or
/// only the suggested ones.
pub open spec fn shown_children(children: Seq<SpaceChild>, suggested_only: bool) -> Seq<SpaceChild>
    decreases children.len(),
{
    if children.len() == 0 {
        Seq::empty()
    } else {
        let rest = shown_children(children.drop_last(), suggested_only);
        if children.last().suggested || !suggested_only {
            rest.push(children.last())
        } else {
            rest
        }
    }
}

/// The children of a parent summary with the servers to reach each, keeping
/// only the suggested ones when `suggested_only`.
pub fn get_parent_children_via(children: &[SpaceChild], suggested_only: bool) -> (r: Vec<(String, Vec<String>)>)
    ensures
        r@.len() == shown_children(children@, suggested_only).len(),
        forall|i: int| 0 <= i < r@.len() ==> {
            let c = #[trigger] shown_children(children@, suggested_only)[i];
            r@[i].0@ == c.room_id@ && r@[i].1@ == c.via@
        },
{
    let mut out: Vec<(String, Vec<String>)> = Vec::new();
    let mut i: usize = 0;
    while i < children.len()
        invariant
            i <= children@.len(),
            out@.len() == shown_children(children@.subrange(0, i as int), suggested_only).len(),
            forall|k: int| 0 <= k < out@.len() ==> {
                let c = #[trigger] shown_children(children@.subrange(0, i as int), suggested_only)[k];
                out@[k].0@ == c.room_id@ && out@[k].1@ == c.via@
            },
        decreases children@.len() - i,
    {
        proof {
            assert(children@.subrange(0, i as int + 1).drop_last() == children@.subrange(0, i as int));
        }
        if children[i].suggested || !suggested_only {
            out.push((children[i].room_id.clone(), children[i].via.clone()));
        }
        i = i + 1;
    }
    proof {
        assert(children@.subrange(0, children@.len() as int) == children@);
    }
    out
}

} // verus!
