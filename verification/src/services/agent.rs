//! The agent gateway's stored state and operator input: approval states,
//! fixed-window tool-call rate limits and quotas, and the grant specs an
//! operator writes.

use vstd::prelude::*;
use vstd::string::*;

use crate::bytes::compare_bytes;
use crate::services::be::{be_u32, be_u64, push_be_u32, push_be_u64, read_be_u32, read_be_u64, u32_from_be, u64_from_be};
use crate::store::backend::read_view;
use crate::store::{Domain, DynStore, StoreError};

verus! {

/// Approval state for a call awaiting a human decision.
pub const APPROVAL_PENDING: u8 = 0x50;

/// Approval state for a call a human has approved.
pub const APPROVAL_APPROVED: u8 = 0x41;

/// Approval state for a call a human has rejected.
pub const APPROVAL_REJECTED: u8 = 0x52;

/// The store key of a call's approval state: `room_id \0 call_id`.
pub open spec fn approval_key_of(room_id: Seq<char>, call_id: Seq<char>) -> Seq<u8> {
    vstd::utf8::encode_utf8(room_id) + seq![0u8] + vstd::utf8::encode_utf8(call_id)
}

/// The [`Domain::AgentApprovals`] store key for a call: `room_id \0
/// call_id`.
pub fn approval_key(room_id: &str, call_id: &str) -> (r: Vec<u8>)
    ensures
        r@ == approval_key_of(room_id@, call_id@),
{
    let mut key = crate::bytes::copy_bytes(room_id.as_bytes());
    key.push(0u8);
    let ghost k0 = key@;
    key.extend_from_slice(call_id.as_bytes());
    assert(key@ =~= k0 + call_id.spec_bytes());
    key
}

/// The rate-limit counter key of a tool: `agent \0 room \0 tool`.
pub open spec fn rate_limit_key_of(agent: Seq<char>, room: Seq<char>, tool: Seq<char>) -> Seq<u8> {
    vstd::utf8::encode_utf8(agent) + seq![0u8] + vstd::utf8::encode_utf8(room) + seq![0u8] + vstd::utf8::encode_utf8(tool)
}

/// The [`Domain::AgentRateLimits`] counter key: `agent \0 room \0 tool`.
pub fn rate_limit_key(agent: &str, room: &str, tool: &str) -> (r: Vec<u8>)
    ensures
        r@ == rate_limit_key_of(agent@, room@, tool@),
{
    let mut key = crate::bytes::copy_bytes(agent.as_bytes());
    key.push(0u8);
    let ghost k0 = key@;
    key.extend_from_slice(room.as_bytes());
    assert(key@ =~= k0 + room.spec_bytes());
    key.push(0u8);
    let ghost k1 = key@;
    key.extend_from_slice(tool.as_bytes());
    assert(key@ =~= k1 + tool.spec_bytes());
    key
}

/// A stored rate-limit window: `window_start_be(8) || count_be(4)`.
pub open spec fn window_record(window_start: u64, count: u32) -> Seq<u8> {
    be_u64(window_start) + be_u32(count)
}

/// Encode a rate-limit window as `window_start_be(8) || count_be(4)`.
pub fn encode_window(window_start: u64, count: u32) -> (r: Vec<u8>)
    ensures
        r@ == window_record(window_start, count),
{
    let mut value: Vec<u8> = Vec::new();
    push_be_u64(&mut value, window_start);
    push_be_u32(&mut value, count);
    assert(value@ =~= be_u64(window_start) + be_u32(count));
    value
}

/// The window a stored record holds: its first 12 bytes, or nothing when it
/// is shorter.
pub open spec fn window_of(bytes: Seq<u8>) -> Option<(u64, u32)> {
    if bytes.len() < 12 {
        None
    } else {
        Some((u64_from_be(bytes.subrange(0, 8)), u32_from_be(bytes.subrange(8, 12))))
    }
}

/// The window a stored value holds, if any.
pub open spec fn stored_window(v: Option<Seq<u8>>) -> Option<(u64, u32)> {
    match v {
        Some(bytes) => window_of(bytes),
        None => None,
    }
}

/// Decode a rate-limit window written by [`encode_window`].
pub fn decode_window(bytes: &[u8]) -> (r: Option<(u64, u32)>)
    ensures
        r == window_of(bytes@),
{
    if bytes.len() < 12 {
        return None;
    }
    Some((read_be_u64(bytes, 0), read_be_u32(bytes, 8)))
}

/// The window a call at `now` counts against: the stored one, or a fresh
/// one at `now` when nothing is stored or the stored one has run out.
pub open spec fn current_window(now: u64, stored: Option<(u64, u32)>, window_secs: u64) -> (u64, u32) {
    let (start, count) = match stored {
        Some(w) => w,
        None => (now, 0u32),
    };
    if now.saturating_sub(start) >= window_secs {
        (now, 0u32)
    } else {
        (start, count)
    }
}

/// The outcome of a call against a tool's rate limit.
#[derive(Debug, PartialEq, Eq, Structural)]
pub enum RateDecision {
    /// The window is full: the call is refused and nothing is recorded.
    Exceeded,
    /// The call is permitted; the window to record.
    Allowed {
        /// The window's start, in seconds since the epoch.
        window_start: u64,
        /// The calls counted in the window, this one included.
        count: u32,
    },
}

/// The decision on a call at `now` against at most `max` calls per
/// `window_secs`-second window.
pub open spec fn rate_decision(now: u64, stored: Option<(u64, u32)>, max: u32, window_secs: u64) -> RateDecision {
    let (start, count) = current_window(now, stored, window_secs);
    if count >= max {
        RateDecision::Exceeded
    } else {
        RateDecision::Allowed { window_start: start, count: count.saturating_add(1) }
    }
}

/// Decide a call at `now` against the stored window: the window resets once
/// `window_secs` have elapsed, a full window refuses the call, and a
/// permitted call increments the count.
pub fn decide_rate(now: u64, stored: Option<(u64, u32)>, max: u32, window_secs: u64) -> (r: RateDecision)
    ensures
        r == rate_decision(now, stored, max, window_secs),
{
    let (mut window_start, mut count) = match stored {
        Some(w) => w,
        None => (now, 0u32),
    };
    if now.saturating_sub(window_start) >= window_secs {
        window_start = now;
        count = 0;
    }
    if count >= max {
        return RateDecision::Exceeded;
    }
    RateDecision::Allowed { window_start, count: count.saturating_add(1) }
}

/// Whether invoking `tool` at `now` exceeds its limit of `max` calls per
/// `window_secs` for `(agent, room)`, maintaining the fixed-window counter
/// in [`Domain::AgentRateLimits`]: a permitted call is recorded, a refused
/// one is not.
pub fn rate_limit_exceeded(
    store: &DynStore,
    now: u64,
    agent: &str,
    room: &str,
    tool: &str,
    max: u32,
    window_secs: u64,
) -> (r: Result<bool, StoreError>)
    ensures
        r matches Ok(exceeded) ==> exists|stored: Option<(u64, u32)>|
            exceeded == (#[trigger] rate_decision(now, stored, max, window_secs) == RateDecision::Exceeded),
        exists|g: Result<Option<Seq<u8>>, StoreError>| #[trigger] store.read_gives(
            Domain::AgentRateLimits, rate_limit_key_of(agent@, room@, tool@), g) && match g {
            Err(e) => r == Err::<bool, StoreError>(e),
            Ok(v) => match rate_decision(now, stored_window(v), max, window_secs) {
                RateDecision::Exceeded => r == Ok::<bool, StoreError>(true),
                RateDecision::Allowed { window_start, count } => exists|c: Result<(), StoreError>|
                    #[trigger] store.commit_gives(
                        seq![(Domain::AgentRateLimits, rate_limit_key_of(agent@, room@, tool@), Some(window_record(window_start, count)))],
                        c,
                    ) && (c is Ok <==> r == Ok::<bool, StoreError>(false)) && (c matches Err(e) ==> r == Err::<bool, StoreError>(e)),
            },
        },
{
    let key = rate_limit_key(agent, room, tool);
    let got = store.get(Domain::AgentRateLimits, key.as_slice());
    let ghost g = read_view(got);
    proof {
        assert(store.read_gives(Domain::AgentRateLimits, rate_limit_key_of(agent@, room@, tool@), g));
    }
    let stored = match got {
        Ok(stored) => stored,
        Err(e) => {
            return Err(e);
        },
    };
    let window = match &stored {
        Some(bytes) => decode_window(bytes.as_slice()),
        None => None,
    };
    assert(window == stored_window(g->Ok_0));
    match decide_rate(now, window, max, window_secs) {
        RateDecision::Exceeded => Ok(true),
        RateDecision::Allowed { window_start, count } => {
            let value = encode_window(window_start, count);
            let put = store.put(Domain::AgentRateLimits, key, value);
            proof {
                assert(store.commit_gives(
                    seq![(Domain::AgentRateLimits, rate_limit_key_of(agent@, room@, tool@), Some(window_record(window_start, count)))],
                    put,
                ));
            }
            match put {
                Ok(()) => Ok(false),
                Err(e) => Err(e),
            }
        },
    }
}

/// A tool's current rate-limit standing for an `(agent, room)`.
#[derive(Clone, Debug)]
pub struct ToolQuota {
    /// The tool name.
    pub tool: String,
    /// The configured maximum invocations per window.
    pub max: u32,
    /// Invocations used in the current window.
    pub used: u32,
    /// Invocations remaining in the current window.
    pub remaining: u32,
    /// The window length, in seconds.
    pub window_secs: u64,
    /// Seconds until the current window resets.
    pub resets_in_secs: u64,
}

/// The `(used, resets_in_secs)` standing at `now` of a stored window: a live
/// window reports its count and the time left; a missing or expired one
/// reports nothing used and a full window.
pub open spec fn standing(now: u64, stored: Option<(u64, u32)>, window_secs: u64) -> (u32, u64) {
    match stored {
        Some((start, count)) => if now.saturating_sub(start) < window_secs {
            (count, window_secs.saturating_sub(now.saturating_sub(start)))
        } else {
            (0u32, window_secs)
        },
        None => (0u32, window_secs),
    }
}

/// The standing of `tool`, limited to `max` calls per `window_secs`, at
/// `now`, given its stored window.
pub fn tool_quota(tool: &str, max: u32, window_secs: u64, now: u64, stored: Option<(u64, u32)>) -> (r: ToolQuota)
    ensures
        r.tool@ == tool@,
        r.max == max,
        (r.used, r.resets_in_secs) == standing(now, stored, window_secs),
        r.remaining == max.saturating_sub(r.used),
        r.window_secs == window_secs,
{
    let (used, resets_in_secs) = match stored {
        Some((start, count)) => {
            if now.saturating_sub(start) < window_secs {
                (count, window_secs.saturating_sub(now.saturating_sub(start)))
            } else {
                (0u32, window_secs)
            }
        },
        None => (0u32, window_secs),
    };
    ToolQuota { tool: tool.to_owned(), max, used, remaining: max.saturating_sub(used), window_secs, resets_in_secs }
}

/// The live rate-limit standing of `agent` in `room` at `now`: one
/// [`ToolQuota`] per `(tool, max, window_secs)` limit, in order, read from
/// the windowed counters.
pub fn quota(store: &DynStore, now: u64, agent: &str, room: &str, limits: &[(String, u32, u64)]) -> (r: Result<Vec<ToolQuota>, StoreError>)
    ensures
        r matches Ok(q) ==> q@.len() == limits@.len() && forall|i: int| 0 <= i < q@.len() ==>
            (#[trigger] q@[i]).tool@ == limits@[i].0@ && q@[i].max == limits@[i].1 && q@[i].window_secs == limits@[i].2
            && q@[i].remaining == q@[i].max.saturating_sub(q@[i].used)
            && exists|v: Option<Seq<u8>>| #[trigger] store.read_gives(
                Domain::AgentRateLimits, rate_limit_key_of(agent@, room@, limits@[i].0@), Ok(v))
                && (q@[i].used, q@[i].resets_in_secs) == standing(now, stored_window(v), limits@[i].2),
        r matches Err(e) ==> exists|i: int| 0 <= i < limits@.len() && #[trigger] store.read_gives(
            Domain::AgentRateLimits, rate_limit_key_of(agent@, room@, limits@[i].0@), Err(e)),
{
    let mut out: Vec<ToolQuota> = Vec::new();
    let mut i: usize = 0;
    while i < limits.len()
        invariant
            i <= limits@.len(),
            out@.len() == i,
            forall|j: int| 0 <= j < i ==> (#[trigger] out@[j]).tool@ == limits@[j].0@ && out@[j].max == limits@[j].1
                && out@[j].window_secs == limits@[j].2 && out@[j].remaining == out@[j].max.saturating_sub(out@[j].used)
                && exists|v: Option<Seq<u8>>| #[trigger] store.read_gives(
                    Domain::AgentRateLimits, rate_limit_key_of(agent@, room@, limits@[j].0@), Ok(v))
                    && (out@[j].used, out@[j].resets_in_secs) == standing(now, stored_window(v), limits@[j].2),
        decreases limits@.len() - i,
    {
        let (tool, max, window_secs) = (&limits[i].0, limits[i].1, limits[i].2);
        let key = rate_limit_key(agent, room, tool.as_str());
        let got = store.get(Domain::AgentRateLimits, key.as_slice());
        proof {
            assert(store.read_gives(Domain::AgentRateLimits, rate_limit_key_of(agent@, room@, limits@[i as int].0@), read_view(got)));
        }
        let stored = match got {
            Ok(stored) => stored,
            Err(e) => {
                return Err(e);
            },
        };
        let ghost v = read_view(got)->Ok_0;
        let window = match &stored {
            Some(bytes) => decode_window(bytes.as_slice()),
            None => None,
        };
        let ghost prev = out@;
        out.push(tool_quota(tool.as_str(), max, window_secs, now, window));
        proof {
            assert(read_view(got) == Ok::<Option<Seq<u8>>, StoreError>(v));
            assert(window == stored_window(v));
            assert(store.read_gives(Domain::AgentRateLimits, rate_limit_key_of(agent@, room@, limits@[i as int].0@), Ok(v)));
            assert forall|j: int| 0 <= j < out@.len() implies (#[trigger] out@[j]).tool@ == limits@[j].0@ && out@[j].max == limits@[j].1
                && out@[j].window_secs == limits@[j].2 && out@[j].remaining == out@[j].max.saturating_sub(out@[j].used)
                && exists|v: Option<Seq<u8>>| #[trigger] store.read_gives(
                    Domain::AgentRateLimits, rate_limit_key_of(agent@, room@, limits@[j].0@), Ok(v))
                    && (out@[j].used, out@[j].resets_in_secs) == standing(now, stored_window(v), limits@[j].2) by {
                if j < i {
                    assert(out@[j] == prev[j]);
                }
            }
        }
        i = i + 1;
    }
    Ok(out)
}

/// Why a tool result is refused.
#[derive(Debug, PartialEq, Eq, Structural)]
pub enum ApprovalRefusal {
    /// The call is still awaiting a human decision.
    AwaitingApproval,
    /// An approver rejected the call.
    Rejected,
}

impl ApprovalRefusal {
    /// The message the refusal is reported with.
    pub fn message(&self) -> (r: &'static str)
        ensures
            self is AwaitingApproval ==> r@ == "Tool call is awaiting human approval."@,
            self is Rejected ==> r@ == "Tool call was rejected by an approver."@,
    {
        match self {
            ApprovalRefusal::AwaitingApproval => "Tool call is awaiting human approval.",
            ApprovalRefusal::Rejected => "Tool call was rejected by an approver.",
        }
    }
}

/// The verdict on a tool result given its call's stored approval state: a
/// call awaiting (or refused by) an approver cannot have its result accepted;
/// calls with no gate, or any other state, pass through.
pub open spec fn gate_verdict(status: Option<Seq<u8>>) -> Result<(), ApprovalRefusal> {
    match status {
        Some(s) => if s == seq![APPROVAL_PENDING] {
            Err(ApprovalRefusal::AwaitingApproval)
        } else if s == seq![APPROVAL_REJECTED] {
            Err(ApprovalRefusal::Rejected)
        } else {
            Ok(())
        },
        None => Ok(()),
    }
}

/// Whether a tool result is admitted given its call's stored approval
/// state: a call awaiting (or refused by) an approver cannot have its result
/// accepted; calls with no gate pass through.
pub fn approval_gate(status: Option<&[u8]>) -> (r: Result<(), ApprovalRefusal>)
    ensures
        r == gate_verdict(match status {
            Some(s) => Some(s@),
            None => None,
        }),
{
    match status {
        Some(s) => {
            if s.len() == 1 && s[0] == APPROVAL_PENDING {
                proof {
                    assert(s@ =~= seq![APPROVAL_PENDING]);
                }
                Err(ApprovalRefusal::AwaitingApproval)
            } else if s.len() == 1 && s[0] == APPROVAL_REJECTED {
                proof {
                    assert(s@ =~= seq![APPROVAL_REJECTED]);
                }
                Err(ApprovalRefusal::Rejected)
            } else {
                proof {
                    if s@ == seq![APPROVAL_PENDING] || s@ == seq![APPROVAL_REJECTED] {
                        assert(s@.len() == 1);
                    }
                }
                Ok(())
            }
        },
        None => Ok(()),
    }
}

/// The approval state recorded for an approver's decision.
pub fn decision_status(approved: bool) -> (r: u8)
    ensures
        r == (if approved { APPROVAL_APPROVED } else { APPROVAL_REJECTED }),
{
    if approved {
        APPROVAL_APPROVED
    } else {
        APPROVAL_REJECTED
    }
}

/// Persist the approval `status` for a call: a one-operation commit that
/// puts the single byte `status` under the call's approval key.
pub fn set_approval_status(store: &DynStore, room_id: &str, call_id: &str, status: u8) -> (r: Result<(), StoreError>)
    ensures
        store.commit_gives(seq![(Domain::AgentApprovals, approval_key_of(room_id@, call_id@), Some(seq![status]))], r),
{
    let mut value: Vec<u8> = Vec::new();
    value.push(status);
    proof {
        assert(value@ =~= seq![status]);
    }
    store.put(Domain::AgentApprovals, approval_key(room_id, call_id), value)
}

/// Read the persisted approval status for a call, if any: what a read of the
/// call's approval key gives.
pub fn approval_status(store: &DynStore, room_id: &str, call_id: &str) -> (r: Result<Option<Vec<u8>>, StoreError>)
    ensures
        store.read_gives(Domain::AgentApprovals, approval_key_of(room_id@, call_id@), read_view(r)),
{
    let key = approval_key(room_id, call_id);
    store.get(Domain::AgentApprovals, key.as_slice())
}

/// The version a grant edit gets: the one given, or one past the current
/// version (saturating).
pub fn next_grant_version(current: u64, version: Option<u64>) -> (r: u64)
    ensures
        r == match version {
            Some(v) => v,
            None => current.saturating_add(1),
        },
{
    match version {
        Some(v) => v,
        None => current.saturating_add(1),
    }
}

} // verus!
