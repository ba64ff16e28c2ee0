//! Laws of the services' computational core: the audit chain, the stored
//! record codecs, the rate limiter, the approval gate and the appservice
//! claims.

use vstd::prelude::*;

use crate::services::agent::{
    gate_verdict, rate_decision, window_of, window_record, ApprovalRefusal, RateDecision,
    APPROVAL_APPROVED, APPROVAL_PENDING, APPROVAL_REJECTED,
};
use crate::services::appservice::RegistrationInfo;
use crate::services::audit::{chain_verdict, chain_walk, entry_hash_of, genesis, recovered_head, AuditError, RawView};
use crate::services::be::{lemma_be_u32_round_trip, lemma_be_u64_round_trip, be_u32, be_u64};
use crate::services::federation::{health_of, health_record};
use crate::services::shadow::diverges;
use crate::stateres::state_map::{SlotView, StateView};

verus! {

/// Walking a chain with one more entry is walking the shorter chain, then
/// that entry.
proof fn lemma_walk_push(raw: Seq<RawView>, x: RawView, i: int, seq: u64, prev: Seq<u8>)
    requires
        0 <= i <= raw.len(),
    ensures
        chain_walk(raw.push(x), i, seq, prev) == match chain_walk(raw, i, seq, prev) {
            Err(e) => Err(e),
            Ok(tip) => chain_walk(seq![x], 0, tip.0, tip.1),
        },
    decreases raw.len() - i,
{
    let longer = raw.push(x);
    if i < raw.len() {
        assert(longer[i] == raw[i]);
        lemma_walk_push(raw, x, i + 1, seq.saturating_add(1), entry_hash_of(raw[i].0, raw[i].1, raw[i].2));
    } else {
        assert(longer[i] == x);
        let next = (seq.saturating_add(1), entry_hash_of(x.0, x.1, x.2));
        assert(chain_walk(longer, i + 1, next.0, next.1) == Ok::<(u64, Seq<u8>), AuditError>(next));
        assert(chain_walk(seq![x], 1, next.0, next.1) == Ok::<(u64, Seq<u8>), AuditError>(next));
    }
}

/// Appending keeps an intact chain intact: when the stored chain verifies
/// against the running head, the chain extended by the entry an append
/// writes — the next sequence number, linked to the head — verifies against
/// the head the append advances to.
pub proof fn lemma_append_keeps_chain_intact(raw: Seq<RawView>, next_seq: u64, head: Seq<u8>, payload: Seq<u8>)
    requires
        chain_verdict(raw, next_seq, head) is Ok,
    ensures
        chain_verdict(
            raw.push((next_seq, head, payload)),
            next_seq.saturating_add(1),
            entry_hash_of(next_seq, head, payload),
        ) is Ok,
{
    let x = (next_seq, head, payload);
    lemma_walk_push(raw, x, 0, 0, genesis());
    let next = (next_seq.saturating_add(1), entry_hash_of(next_seq, head, payload));
    assert(seq![x][0] == x);
    assert(chain_walk(seq![x], 1, next.0, next.1) == Ok::<(u64, Seq<u8>), AuditError>(next));
}

/// A chain whose links hold verifies against the head recovered from it:
/// reopening a log resumes exactly where its stored chain ends.
pub proof fn lemma_recovered_head_verifies(raw: Seq<RawView>)
    requires
        chain_walk(raw, 0, 0, genesis()) is Ok,
    ensures
        chain_verdict(raw, recovered_head(raw).0, recovered_head(raw).1) is Ok,
{
    if raw.len() > 0 {
        let shorter = raw.drop_last();
        let x = raw.last();
        assert(shorter.push(x) =~= raw);
        lemma_walk_push(shorter, x, 0, 0, genesis());
        let tip = chain_walk(shorter, 0, 0, genesis())->Ok_0;
        assert(seq![x][0] == x);
        let next = (x.0.saturating_add(1), entry_hash_of(x.0, x.1, x.2));
        assert(chain_walk(seq![x], 1, next.0, next.1) == Ok::<(u64, Seq<u8>), AuditError>(next));
    }
}

/// The stored entries, next sequence number and head hash after appending
/// each of `payloads` in turn to an empty log.
pub open spec fn appended(payloads: Seq<Seq<u8>>) -> (Seq<RawView>, u64, Seq<u8>)
    decreases payloads.len(),
{
    if payloads.len() == 0 {
        (Seq::empty(), 0, genesis())
    } else {
        let (raw, seq, head) = appended(payloads.drop_last());
        let p = payloads.last();
        (raw.push((seq, head, p)), seq.saturating_add(1), entry_hash_of(seq, head, p))
    }
}

/// A log written by appends alone verifies: the chain that appending any
/// payloads to an empty log stores verifies against the head the appends
/// leave, and reopening the log recovers exactly that head.
pub proof fn lemma_appended_chain_verifies(payloads: Seq<Seq<u8>>)
    ensures
        chain_verdict(appended(payloads).0, appended(payloads).1, appended(payloads).2) is Ok,
        recovered_head(appended(payloads).0) == (appended(payloads).1, appended(payloads).2),
    decreases payloads.len(),
{
    if payloads.len() == 0 {
        assert(chain_walk(Seq::<RawView>::empty(), 0, 0, genesis()) == Ok::<(u64, Seq<u8>), AuditError>((0u64, genesis())));
    } else {
        let (raw, seq, head) = appended(payloads.drop_last());
        lemma_appended_chain_verifies(payloads.drop_last());
        lemma_append_keeps_chain_intact(raw, seq, head, payloads.last());
        assert(raw.push((seq, head, payloads.last())).last() == (seq, head, payloads.last()));
    }
}

/// A rate-limit window record reads back as the window it was written from.
pub proof fn lemma_window_round_trip(window_start: u64, count: u32)
    ensures
        window_of(window_record(window_start, count)) == Some((window_start, count)),
{
    let b = window_record(window_start, count);
    lemma_be_u64_round_trip(window_start);
    lemma_be_u32_round_trip(count);
    assert(b.subrange(0, 8) =~= be_u64(window_start));
    assert(b.subrange(8, 12) =~= be_u32(count));
}

/// A federation health record reads back as the record it was written from.
pub proof fn lemma_health_round_trip(attempt: u32, available_at: u64)
    ensures
        health_of(health_record(attempt, available_at)) == Some((attempt, available_at)),
{
    let b = health_record(attempt, available_at);
    lemma_be_u32_round_trip(attempt);
    lemma_be_u64_round_trip(available_at);
    assert(b.subrange(0, 4) =~= be_u32(attempt));
    assert(b.subrange(4, 12) =~= be_u64(available_at));
}

/// The rate limiter never lets a window count past its maximum: a permitted
/// call is counted in a window holding at most `max` calls, this one
/// included; a call is refused only when its window already holds `max`.
pub proof fn lemma_rate_never_exceeds_max(now: u64, stored: Option<(u64, u32)>, max: u32, window_secs: u64)
    ensures
        match rate_decision(now, stored, max, window_secs) {
            RateDecision::Allowed { window_start, count } => 1 <= count <= max,
            RateDecision::Exceeded => max == 0 || stored is Some,
        },
{
}

/// A window resets once it has run out: a call `window_secs` or more after
/// the stored window's start opens a fresh window at `now`, as its first call.
pub proof fn lemma_expired_window_resets(now: u64, start: u64, count: u32, max: u32, window_secs: u64)
    requires
        now.saturating_sub(start) >= window_secs,
        max > 0,
    ensures
        rate_decision(now, Some((start, count)), max, window_secs)
            == (RateDecision::Allowed { window_start: now, count: 1 }),
{
}

/// A approver's decision settles the approval gate: an approved call's result
/// is admitted and a rejected one's is refused as rejected; a pending call's
/// is refused as awaiting approval.
pub proof fn lemma_decision_settles_gate(approved: bool)
    ensures
        gate_verdict(Some(seq![if approved { APPROVAL_APPROVED } else { APPROVAL_REJECTED }]))
            == if approved {
                Ok::<(), ApprovalRefusal>(())
            } else {
                Err::<(), ApprovalRefusal>(ApprovalRefusal::Rejected)
            },
        gate_verdict(Some(seq![APPROVAL_PENDING])) == Err::<(), ApprovalRefusal>(ApprovalRefusal::AwaitingApproval),
{
    if approved {
        assert(seq![APPROVAL_APPROVED] != seq![APPROVAL_PENDING]) by {
            assert(seq![APPROVAL_APPROVED][0] != seq![APPROVAL_PENDING][0]);
        }
        assert(seq![APPROVAL_APPROVED] != seq![APPROVAL_REJECTED]) by {
            assert(seq![APPROVAL_APPROVED][0] != seq![APPROVAL_REJECTED][0]);
        }
    } else {
        assert(seq![APPROVAL_REJECTED] != seq![APPROVAL_PENDING]) by {
            assert(seq![APPROVAL_REJECTED][0] != seq![APPROVAL_PENDING][0]);
        }
    }
}

/// An exclusive claim is a claim: whom an appservice claims exclusively, it
/// claims.
pub proof fn lemma_exclusive_claim_is_claim(info: RegistrationInfo, user: Seq<char>)
    ensures
        info.claims_user_exclusively(user) ==> info.claims_user(user),
{
}

/// A state never diverges from itself, and divergence does not depend on
/// which side is the authoritative one.
pub proof fn lemma_divergence_symmetric(a: StateView, b: StateView, k: SlotView)
    ensures
        !diverges(a, a, k),
        diverges(a, b, k) == diverges(b, a, k),
{
}

} // verus!
