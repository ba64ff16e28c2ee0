//! The services' core: the audit chain, content addressing, the federation
//! queue, shadow comparison, agent limits and approvals, grant specs, space
//! access and appservice namespaces.

use gaussmatrix::services::agent::{
    approval_gate, approval_key, approval_status, decide_rate, decision_status, decode_window,
    encode_window, next_grant_version, quota, rate_limit_exceeded, rate_limit_key,
    set_approval_status, tool_quota, ApprovalRefusal, RateDecision, APPROVAL_APPROVED,
    APPROVAL_PENDING, APPROVAL_REJECTED,
};
use gaussmatrix::services::appservice::{
    AppserviceError, Namespace, NamespaceRegex, Namespaces, Registration, RegistrationInfo,
};
use gaussmatrix::services::audit::{
    decode_raw, head_of_chain, recover_head, verify_chain, AuditError, AuditLog, HASH_LEN,
};
use gaussmatrix::services::cas::{blob_count, blob_path, content_id, has_blob, load_blob, store_blob, CasError};
use gaussmatrix::services::federation::{
    all_queue_depths, count_destinations, decode_health, drain_queue, due_batches, encode_health,
    health_records, max_queue_seq, max_seq, queue_depth, queue_key, queue_prefix, ready_destinations,
    restore_health,
};
use gaussmatrix::services::grant_spec::{parse_rate_spec, parse_tool_spec, parse_u32, parse_u64, GrantSpecError};
use gaussmatrix::services::shadow::diverging_keys;
use gaussmatrix::services::spaces::{
    cache_write, get_parent_children_via, is_accessible_child, is_listed_child, local_fallback, local_step,
    summary_member_count, CacheProbe, CacheWrite, Fallback, JoinRuleKind, LocalStep, Requester, SpaceChild,
    SummaryOutcome,
};
use gaussmatrix::stateres::{OrdMap, StateKey, StateMap};
use gaussmatrix::store::{Domain, DynStore, MemBackend};

fn mem_store() -> DynStore {
    DynStore::new(MemBackend::new())
}

fn service() -> (AuditLog, DynStore) {
    let store = mem_store();
    (AuditLog::fresh(store.clone()), store)
}

// ---- audit log ----

#[test]
fn append_chains_and_reads_back_in_order() {
    let (mut svc, _store) = service();
    assert_eq!(svc.append(b"a").unwrap(), 0);
    assert_eq!(svc.append(b"b").unwrap(), 1);
    assert_eq!(svc.append(b"c").unwrap(), 2);

    let payloads: Vec<_> = svc.entries().unwrap().into_iter().map(|(_, val)| val).collect();
    assert_eq!(payloads, vec![b"a".to_vec(), b"b".to_vec(), b"c".to_vec()]);
    assert_eq!(svc.count().unwrap(), 3);
}

#[test]
fn intact_chain_verifies() {
    let (mut svc, _store) = service();
    for entry in [b"one".as_slice(), b"two".as_slice(), b"three".as_slice()] {
        svc.append(entry).unwrap();
    }
    svc.verify().unwrap();
}

#[test]
fn empty_chain_verifies() {
    let (svc, _store) = service();
    svc.verify().unwrap();
}

#[test]
fn tampering_a_middle_entry_breaks_the_link() {
    let (mut svc, store) = service();
    svc.append(b"first").unwrap();
    svc.append(b"second").unwrap();
    svc.append(b"third").unwrap();

    let stored = store.get(Domain::AuditLog, &1_u64.to_be_bytes()).unwrap().unwrap();
    let mut tampered = stored[..HASH_LEN].to_vec();
    tampered.extend_from_slice(b"FORGED");
    store.put(Domain::AuditLog, 1_u64.to_be_bytes().to_vec(), tampered).unwrap();

    assert!(svc.verify().is_err(), "tampering must be detected");
}

#[test]
fn tampering_the_last_entry_is_detected_by_head_mismatch() {
    let (mut svc, store) = service();
    svc.append(b"first").unwrap();
    svc.append(b"last").unwrap();

    let stored = store.get(Domain::AuditLog, &1_u64.to_be_bytes()).unwrap().unwrap();
    let mut tampered = stored[..HASH_LEN].to_vec();
    tampered.extend_from_slice(b"FORGED");
    store.put(Domain::AuditLog, 1_u64.to_be_bytes().to_vec(), tampered).unwrap();

    assert!(svc.verify().is_err(), "final-entry rewrite must be detected");
}

#[test]
fn recover_head_resumes_the_chain() {
    let (mut svc, store) = service();
    svc.append(b"x").unwrap();
    svc.append(b"y").unwrap();

    let recovered = recover_head(&store).unwrap();
    assert_eq!(recovered.next_seq, 2);
    assert_eq!(recovered.hash, svc.head_hash());
}

#[test]
fn reopened_log_verifies_and_continues_the_chain() {
    let (mut svc, store) = service();
    svc.append(b"x").unwrap();
    svc.append(b"y").unwrap();

    let mut reopened = AuditLog::open(store.clone()).unwrap();
    reopened.verify().unwrap();
    assert_eq!(reopened.head_hash(), svc.head_hash());
    assert_eq!(reopened.append(b"z").unwrap(), 2);
    reopened.verify().unwrap();
    assert_eq!(reopened.count().unwrap(), 3);
}

#[test]
fn head_hash_starts_at_genesis_and_advances() {
    let (mut svc, _store) = service();
    assert_eq!(svc.head_hash(), vec![0_u8; 32]);
    svc.append(b"payload").unwrap();
    let after = svc.head_hash();
    assert_eq!(after.len(), 32);
    assert_ne!(after, vec![0_u8; 32]);
}

#[test]
fn tail_keeps_the_most_recent_entries() {
    let (mut svc, _store) = service();
    for entry in [b"a".as_slice(), b"b".as_slice(), b"c".as_slice()] {
        svc.append(entry).unwrap();
    }
    assert_eq!(svc.tail(2).unwrap(), vec![(1, b"b".to_vec()), (2, b"c".to_vec())]);
    assert_eq!(svc.tail(10).unwrap().len(), 3);
    assert!(svc.tail(0).unwrap().is_empty());
}

#[test]
fn verify_chain_reports_each_fault() {
    let genesis = vec![0_u8; 32];
    let mut good = Vec::new();
    let mut head = head_of_chain(&good);
    assert_eq!(head.next_seq, 0);
    assert_eq!(head.hash, genesis);
    for (seq, payload) in [(0_u64, b"a".to_vec()), (1, b"b".to_vec())] {
        good.push((seq, head.hash.clone(), payload));
        head = head_of_chain(&good);
    }
    assert!(verify_chain(&good, head.next_seq, &head.hash).is_ok());

    let mut gap = good.clone();
    gap[1].0 = 5;
    assert!(matches!(verify_chain(&gap, head.next_seq, &head.hash), Err(AuditError::SequenceGap(5))));

    let mut broken = good.clone();
    broken[1].1 = vec![1_u8; 32];
    assert!(matches!(verify_chain(&broken, head.next_seq, &head.hash), Err(AuditError::BrokenLink(1))));

    assert!(matches!(verify_chain(&good, head.next_seq, &genesis), Err(AuditError::HeadMismatch)));
    assert!(matches!(verify_chain(&good, 7, &head.hash), Err(AuditError::HeadMismatch)));
}

#[test]
fn decode_raw_refuses_malformed_entries() {
    let bad_key = vec![(vec![0_u8; 3], vec![0_u8; 40])];
    assert!(matches!(decode_raw(&bad_key), Err(AuditError::MalformedKey)));

    let short = vec![(7_u64.to_be_bytes().to_vec(), vec![0_u8; 10])];
    assert!(matches!(decode_raw(&short), Err(AuditError::TooShort(7))));

    let mut value = vec![9_u8; 32];
    value.extend_from_slice(b"body");
    let ok = vec![(3_u64.to_be_bytes().to_vec(), value)];
    let raw = decode_raw(&ok).unwrap();
    assert_eq!(raw, vec![(3, vec![9_u8; 32], b"body".to_vec())]);
}

// ---- content-addressed storage ----

#[test]
fn store_is_content_addressed_and_dedupes() {
    let store = mem_store();

    let id = store_blob(&store, b"hello world").unwrap();
    assert_eq!(id, content_id(b"hello world"));

    let again = store_blob(&store, b"hello world").unwrap();
    assert_eq!(again, id);
    assert_eq!(store.prefix_scan(Domain::MediaBlobs, b"").unwrap().len(), 1);

    let other = store_blob(&store, b"goodbye").unwrap();
    assert_ne!(other, id);
    assert_eq!(store.prefix_scan(Domain::MediaBlobs, b"").unwrap().len(), 2);
}

#[test]
fn load_and_has_round_trip() {
    let store = mem_store();
    let id = store_blob(&store, b"payload").unwrap();

    assert!(has_blob(&store, &id).unwrap());
    assert_eq!(load_blob(&store, &id).unwrap(), Some(b"payload".to_vec()));

    let absent = content_id(b"never stored");
    assert!(!has_blob(&store, &absent).unwrap());
    assert_eq!(load_blob(&store, &absent).unwrap(), None);

    load_blob(&store, "not valid base64!!").unwrap_err();
}

#[test]
fn blob_path_is_sharded_and_stable() {
    let id = content_id(b"payload");
    let path = blob_path(&id);

    let shard = id.get(..2).unwrap();
    assert_eq!(path, format!("media_cas/{shard}/{id}"));
    assert_eq!(blob_path(&content_id(b"payload")), path);
}

#[test]
fn content_id_is_url_safe_base64_of_sha256() {
    assert_eq!(content_id(b"hello world"), "uU0nuZNNPgilLlLX2n2r-sSE7-N6U4DukIj3rOLvzek");
    assert_eq!(content_id(b"").len(), 43);
}

#[test]
fn malformed_ids_are_refused_and_blobs_are_counted() {
    let store = mem_store();
    assert!(matches!(has_blob(&store, "###"), Err(CasError::InvalidId)));
    assert_eq!(blob_count(&store).unwrap(), 0);
    store_blob(&store, b"one").unwrap();
    store_blob(&store, b"two").unwrap();
    store_blob(&store, b"one").unwrap();
    assert_eq!(blob_count(&store).unwrap(), 2);
}

#[test]
fn blob_path_of_a_short_id_uses_the_fallback_shard() {
    assert_eq!(blob_path("a"), "media_cas/__/a");
}

// ---- federation queue ----

#[test]
fn durable_queue_orders_and_drains_per_destination() {
    let store = mem_store();
    store.put(Domain::FederationQueue, queue_key("a.org", 0), b"a0".to_vec()).unwrap();
    store.put(Domain::FederationQueue, queue_key("a.org", 1), b"a1".to_vec()).unwrap();
    store.put(Domain::FederationQueue, queue_key("b.org", 0), b"b0".to_vec()).unwrap();

    assert_eq!(queue_depth(&store, "a.org").unwrap(), 2);
    assert_eq!(queue_depth(&store, "b.org").unwrap(), 1);

    let drained = drain_queue(&store, "a.org").unwrap();
    assert_eq!(drained, vec![b"a0".to_vec(), b"a1".to_vec()]);
    assert_eq!(queue_depth(&store, "a.org").unwrap(), 0);
    assert_eq!(queue_depth(&store, "b.org").unwrap(), 1);
}

#[test]
fn depths_and_max_seq_span_all_destinations() {
    let store = mem_store();
    store.put(Domain::FederationQueue, queue_key("a.org", 3), b"x".to_vec()).unwrap();
    store.put(Domain::FederationQueue, queue_key("b.org", 7), b"y".to_vec()).unwrap();

    let depths = all_queue_depths(&store).unwrap();
    assert_eq!(depths, vec![("a.org".to_owned(), 1), ("b.org".to_owned(), 1)]);

    assert_eq!(max_queue_seq(&store).unwrap(), 7);
    assert_eq!(max_queue_seq(&mem_store()).unwrap(), 0);
}

#[test]
fn tick_drains_only_ready_destinations() {
    let store = mem_store();
    store.put(Domain::FederationQueue, queue_key("ready.org", 0), b"r0".to_vec()).unwrap();
    store.put(Domain::FederationQueue, queue_key("ready.org", 1), b"r1".to_vec()).unwrap();
    store.put(Domain::FederationQueue, queue_key("backed.org", 0), b"b0".to_vec()).unwrap();

    let backed_off = vec!["backed.org".to_owned()];
    let batches = due_batches(&store, &backed_off).unwrap();
    assert_eq!(batches, vec![("ready.org".to_owned(), vec![b"r0".to_vec(), b"r1".to_vec()])]);

    assert_eq!(queue_depth(&store, "ready.org").unwrap(), 0);
    assert_eq!(queue_depth(&store, "backed.org").unwrap(), 1);
}

#[test]
fn queue_keys_are_destination_nul_seq() {
    let mut expected = b"a.org\0".to_vec();
    expected.extend_from_slice(&5_u64.to_be_bytes());
    assert_eq!(queue_key("a.org", 5), expected);
    assert_eq!(queue_prefix("a.org"), b"a.org\0".to_vec());
}

#[test]
fn counting_and_max_seq_over_a_scan() {
    let scanned = vec![
        (queue_key("a.org", 1), b"x".to_vec()),
        (queue_key("a.org", 9), b"y".to_vec()),
        (queue_key("b.org", 4), b"z".to_vec()),
    ];
    assert_eq!(count_destinations(&scanned), vec![("a.org".to_owned(), 2), ("b.org".to_owned(), 1)]);
    assert_eq!(max_seq(&scanned), 9);
    assert_eq!(max_seq(&[]), 0);
}

#[test]
fn ready_destinations_skip_backed_off_and_empty_queues() {
    let depths = vec![("a.org".to_owned(), 2), ("b.org".to_owned(), 0), ("c.org".to_owned(), 1)];
    assert_eq!(ready_destinations(&depths, &["c.org".to_owned()]), vec!["a.org".to_owned()]);
    assert_eq!(ready_destinations(&depths, &[]), vec!["a.org".to_owned(), "c.org".to_owned()]);
}

#[test]
fn health_records_round_trip() {
    let record = encode_health(3, 1_700_000_000_000);
    assert_eq!(record.len(), 12);
    assert_eq!(decode_health(&record), Some((3, 1_700_000_000_000)));
    assert_eq!(decode_health(&record[..11]), None);
}

#[test]
fn persisted_health_is_restored_and_junk_skipped() {
    let store = mem_store();
    store.put(Domain::FederationHealth, b"a.org".to_vec(), encode_health(2, 500)).unwrap();
    store.put(Domain::FederationHealth, b"b.org".to_vec(), vec![1, 2, 3]).unwrap();
    store.put(Domain::FederationHealth, vec![0xff, 0xfe], encode_health(1, 1)).unwrap();
    store.put(Domain::FederationHealth, b"c.org".to_vec(), encode_health(7, 9_000)).unwrap();
    assert_eq!(restore_health(&store).unwrap(), vec![("a.org".to_owned(), 2, 500), ("c.org".to_owned(), 7, 9_000)]);
    assert!(health_records(&[]).is_empty());
}

// ---- shadow comparison ----

fn key(ty: &str, sk: &str) -> StateKey {
    (ty.to_owned(), sk.to_owned())
}

fn gm_map(entries: &[(&str, &str, &str)]) -> StateMap {
    let mut m = OrdMap::new();
    for (ty, sk, id) in entries {
        m.insert(key(ty, sk), (*id).to_owned());
    }
    m
}

#[test]
fn identical_maps_have_no_divergence() {
    let a = gm_map(&[("m.room.create", "", "$c:x"), ("m.room.member", "@a:x", "$m:x")]);
    let b = gm_map(&[("m.room.create", "", "$c:x"), ("m.room.member", "@a:x", "$m:x")]);
    assert!(diverging_keys(&a, &b).is_empty());
}

#[test]
fn differing_value_and_missing_key_both_diverge() {
    let expected = gm_map(&[("m.room.create", "", "$c:x"), ("m.room.member", "@a:x", "$m1:x")]);
    let shadow = gm_map(&[
        ("m.room.create", "", "$c:x"),
        ("m.room.member", "@a:x", "$m2:x"),
        ("m.room.topic", "", "$t:x"),
    ]);

    let diverged = diverging_keys(&expected, &shadow);
    assert_eq!(diverged, vec![key("m.room.member", "@a:x"), key("m.room.topic", "")]);
}

#[test]
fn divergence_is_symmetric_in_its_keys() {
    let a = gm_map(&[("m.room.name", "", "$n:x")]);
    let b = gm_map(&[("m.room.topic", "", "$t:x")]);
    assert_eq!(diverging_keys(&a, &b), diverging_keys(&b, &a));
    assert_eq!(diverging_keys(&a, &b), vec![key("m.room.name", ""), key("m.room.topic", "")]);
}

// ---- agent limits, quotas and approvals ----

#[test]
fn window_records_round_trip() {
    let record = encode_window(1_000, 7);
    assert_eq!(record.len(), 12);
    assert_eq!(decode_window(&record), Some((1_000, 7)));
    assert_eq!(decode_window(&record[..5]), None);
}

#[test]
fn rate_decisions_count_reset_and_refuse() {
    assert_eq!(decide_rate(100, None, 2, 60), RateDecision::Allowed { window_start: 100, count: 1 });
    assert_eq!(decide_rate(110, Some((100, 1)), 2, 60), RateDecision::Allowed { window_start: 100, count: 2 });
    assert_eq!(decide_rate(120, Some((100, 2)), 2, 60), RateDecision::Exceeded);
    assert_eq!(decide_rate(160, Some((100, 2)), 2, 60), RateDecision::Allowed { window_start: 160, count: 1 });
    assert_eq!(decide_rate(100, None, 0, 60), RateDecision::Exceeded);
}

#[test]
fn rate_limited_calls_never_exceed_max() {
    let mut stored = None;
    let mut allowed = 0;
    for now in 0..30_u64 {
        match decide_rate(now, stored, 3, 1_000) {
            RateDecision::Allowed { window_start, count } => {
                assert!(count <= 3);
                allowed += 1;
                stored = Some((window_start, count));
            },
            RateDecision::Exceeded => {},
        }
    }
    assert_eq!(allowed, 3);
}

#[test]
fn rate_limit_exceeded_records_only_permitted_calls() {
    let store = mem_store();
    assert!(!rate_limit_exceeded(&store, 10, "@bot:x", "!r:x", "search", 2, 60).unwrap());
    assert!(!rate_limit_exceeded(&store, 11, "@bot:x", "!r:x", "search", 2, 60).unwrap());
    assert!(rate_limit_exceeded(&store, 12, "@bot:x", "!r:x", "search", 2, 60).unwrap());
    let stored = store.get(Domain::AgentRateLimits, &rate_limit_key("@bot:x", "!r:x", "search")).unwrap().unwrap();
    assert_eq!(decode_window(&stored), Some((10, 2)));
    assert!(!rate_limit_exceeded(&store, 70, "@bot:x", "!r:x", "search", 2, 60).unwrap());
}

#[test]
fn quota_reports_standing_per_tool() {
    let store = mem_store();
    rate_limit_exceeded(&store, 10, "@bot:x", "!r:x", "search", 5, 60).unwrap();
    let limits = vec![("search".to_owned(), 5, 60), ("fetch".to_owned(), 2, 30)];
    let q = quota(&store, 20, "@bot:x", "!r:x", &limits).unwrap();
    assert_eq!(q.len(), 2);
    assert_eq!((q[0].tool.as_str(), q[0].used, q[0].remaining, q[0].resets_in_secs), ("search", 1, 4, 50));
    assert_eq!((q[1].tool.as_str(), q[1].used, q[1].remaining, q[1].resets_in_secs), ("fetch", 0, 2, 30));

    let expired = tool_quota("search", 5, 60, 100, Some((10, 4)));
    assert_eq!((expired.used, expired.remaining, expired.resets_in_secs), (0, 5, 60));
}

#[test]
fn approval_gate_follows_the_stored_status() {
    assert_eq!(approval_gate(None), Ok(()));
    assert_eq!(approval_gate(Some(&[APPROVAL_PENDING])), Err(ApprovalRefusal::AwaitingApproval));
    assert_eq!(approval_gate(Some(&[APPROVAL_REJECTED])), Err(ApprovalRefusal::Rejected));
    assert_eq!(approval_gate(Some(&[APPROVAL_APPROVED])), Ok(()));
    assert_eq!(approval_gate(Some(&[APPROVAL_PENDING, APPROVAL_PENDING])), Ok(()));
    assert_eq!(ApprovalRefusal::AwaitingApproval.message(), "Tool call is awaiting human approval.");
    assert_eq!(ApprovalRefusal::Rejected.message(), "Tool call was rejected by an approver.");
}

#[test]
fn a_decision_settles_the_gate() {
    let store = mem_store();
    set_approval_status(&store, "!r:x", "call1", APPROVAL_PENDING).unwrap();
    let pending = approval_status(&store, "!r:x", "call1").unwrap().unwrap();
    assert_eq!(approval_gate(Some(&pending)), Err(ApprovalRefusal::AwaitingApproval));

    set_approval_status(&store, "!r:x", "call1", decision_status(true)).unwrap();
    let approved = approval_status(&store, "!r:x", "call1").unwrap().unwrap();
    assert_eq!(approval_gate(Some(&approved)), Ok(()));

    set_approval_status(&store, "!r:x", "call1", decision_status(false)).unwrap();
    let rejected = approval_status(&store, "!r:x", "call1").unwrap().unwrap();
    assert_eq!(approval_gate(Some(&rejected)), Err(ApprovalRefusal::Rejected));
    assert_eq!(approval_status(&store, "!r:x", "other").unwrap(), None);
}

#[test]
fn agent_keys_are_nul_separated() {
    assert_eq!(approval_key("!r:x", "c1"), b"!r:x\0c1".to_vec());
    assert_eq!(rate_limit_key("@a:x", "!r:x", "t"), b"@a:x\0!r:x\0t".to_vec());
}

#[test]
fn grant_versions_advance() {
    assert_eq!(next_grant_version(4, None), 5);
    assert_eq!(next_grant_version(4, Some(9)), 9);
    assert_eq!(next_grant_version(u64::MAX, None), u64::MAX);
}

// ---- grant specs ----

#[test]
fn tool_specs_split_at_the_first_colon() {
    assert_eq!(parse_tool_spec("search:read"), Ok(("search".to_owned(), "read".to_owned())));
    assert_eq!(parse_tool_spec("a:b:c"), Ok(("a".to_owned(), "b:c".to_owned())));
    assert_eq!(parse_tool_spec("nocolon"), Err(GrantSpecError::ToolSpec));
    assert_eq!(GrantSpecError::ToolSpec.message(), "tool must be given as name:action");
}

#[test]
fn rate_specs_need_two_colons_and_numbers() {
    assert_eq!(parse_rate_spec("search:10:60"), Ok(("search".to_owned(), 10, 60)));
    assert_eq!(parse_rate_spec("search:+3:60"), Ok(("search".to_owned(), 3, 60)));
    assert_eq!(parse_rate_spec("search:10"), Err(GrantSpecError::RateSpec));
    assert_eq!(parse_rate_spec("a:1:2:3"), Err(GrantSpecError::RateSpec));
    assert_eq!(parse_rate_spec("search:-1:60"), Err(GrantSpecError::RateMax));
    assert_eq!(parse_rate_spec("search:4294967296:60"), Err(GrantSpecError::RateMax));
    assert_eq!(parse_rate_spec("search:10:soon"), Err(GrantSpecError::RateWindow));
    assert_eq!(GrantSpecError::RateWindow.message(), "rate window_secs must be a non-negative integer");
}

#[test]
fn unsigned_parsing_matches_std() {
    for text in ["0", "42", "+7", "", "+", "-1", "4294967295", "4294967296", "18446744073709551615", "18446744073709551616", " 1", "1x"] {
        assert_eq!(parse_u32(text), text.parse::<u32>().ok(), "{text}");
        assert_eq!(parse_u64(text), text.parse::<u64>().ok(), "{text}");
    }
}

// ---- space hierarchy access ----

#[test]
fn child_access_follows_acl_membership_and_join_rule() {
    assert!(!is_accessible_child(Requester::Server, false, true, JoinRuleKind::Public, &[]));
    assert!(is_accessible_child(Requester::Server, true, false, JoinRuleKind::Public, &[]));
    assert!(is_accessible_child(Requester::User, false, true, JoinRuleKind::Other, &[]));
    assert!(!is_accessible_child(Requester::User, true, false, JoinRuleKind::Other, &[]));
    assert!(is_accessible_child(Requester::User, false, false, JoinRuleKind::Knock, &[]));
    assert!(is_accessible_child(Requester::User, false, false, JoinRuleKind::KnockRestricted, &[false]));
    assert!(is_accessible_child(Requester::User, false, false, JoinRuleKind::Restricted, &[]));
    assert!(is_accessible_child(Requester::User, false, false, JoinRuleKind::Restricted, &[false, true]));
    assert!(!is_accessible_child(Requester::User, false, false, JoinRuleKind::Restricted, &[false, false]));
    assert!(!is_accessible_child(Requester::Server, true, true, JoinRuleKind::Other, &[]));
}

#[test]
fn local_lookup_steps_follow_the_cache() {
    assert_eq!(local_step(CacheProbe::Failed { not_found: false }), LocalStep::Fail);
    assert_eq!(local_step(CacheProbe::Failed { not_found: true }), LocalStep::Compute);
    assert_eq!(local_step(CacheProbe::Found { live: true, positive: true }), LocalStep::FromCache);
    assert_eq!(local_step(CacheProbe::Found { live: true, positive: false }), LocalStep::Compute);
    assert_eq!(local_step(CacheProbe::Found { live: false, positive: true }), LocalStep::Compute);

    assert_eq!(cache_write(SummaryOutcome::Accessible { serializable: true }), CacheWrite::Summary);
    assert_eq!(cache_write(SummaryOutcome::Accessible { serializable: false }), CacheWrite::NoSummary);
    assert_eq!(cache_write(SummaryOutcome::Inaccessible), CacheWrite::NoSummary);
    assert_eq!(cache_write(SummaryOutcome::Failed), CacheWrite::Nothing);

    assert_eq!(local_fallback(false, false), Fallback::Propagate);
    assert_eq!(local_fallback(true, true), Fallback::NotFoundLocally);
    assert_eq!(local_fallback(true, false), Fallback::AskFederation);
}

#[test]
fn summaries_and_children_are_filtered() {
    assert_eq!(summary_member_count(42), 42);
    assert_eq!(summary_member_count(9_007_199_254_740_991), 9_007_199_254_740_991);
    assert_eq!(summary_member_count(9_007_199_254_740_992), 0);
    assert!(is_listed_child(true, 1, true));
    assert!(!is_listed_child(true, 0, true));
    assert!(!is_listed_child(false, 2, true));
    assert!(!is_listed_child(true, 2, false));

    let children = vec![
        SpaceChild { room_id: "!a:x".to_owned(), suggested: true, via: vec!["x".to_owned()] },
        SpaceChild { room_id: "!b:x".to_owned(), suggested: false, via: vec!["y".to_owned(), "z".to_owned()] },
    ];
    assert_eq!(get_parent_children_via(&children, true), vec![("!a:x".to_owned(), vec!["x".to_owned()])]);
    assert_eq!(get_parent_children_via(&children, false).len(), 2);
    assert_eq!(get_parent_children_via(&children, false)[1], ("!b:x".to_owned(), vec!["y".to_owned(), "z".to_owned()]));
}

// ---- appservice namespaces ----

fn ns(exclusive: bool, regex: &str) -> Namespace {
    Namespace { exclusive, regex: regex.to_owned() }
}

fn registration(users: Vec<Namespace>) -> Registration {
    Registration {
        id: "bridge".to_owned(),
        sender_localpart: "bridgebot".to_owned(),
        namespaces: Namespaces { users, aliases: vec![ns(false, "#bridge_.*")], rooms: vec![ns(true, "!Bridge.*")] },
    }
}

#[test]
fn namespaces_split_by_exclusivity() {
    let regexes = NamespaceRegex::new(false, &[ns(true, "^@irc_.*"), ns(false, "^@guest_.*")]).unwrap();
    assert!(regexes.exclusive.is_some() && regexes.non_exclusive.is_some());
    assert!(regexes.is_exclusive_match("@irc_alice:x"));
    assert!(regexes.is_match("@irc_alice:x"));
    assert!(!regexes.is_exclusive_match("@guest_bob:x"));
    assert!(regexes.is_match("@guest_bob:x"));
    assert!(!regexes.is_match("@carol:x"));

    let none = NamespaceRegex::new(false, &[]).unwrap();
    assert!(none.exclusive.is_none() && none.non_exclusive.is_none());
    assert!(!none.is_match("@anyone:x"));
}

#[test]
fn case_sensitivity_is_chosen_per_namespace_kind() {
    let insensitive = NamespaceRegex::new(false, &[ns(true, "^@IRC_.*")]).unwrap();
    assert!(insensitive.is_match("@irc_alice:x"));
    let sensitive = NamespaceRegex::new(true, &[ns(true, "^@IRC_.*")]).unwrap();
    assert!(!sensitive.is_match("@irc_alice:x"));
    assert!(sensitive.is_match("@IRC_alice:x"));
}

#[test]
fn an_invalid_pattern_is_refused() {
    let err = NamespaceRegex::new(false, &[ns(false, "(unclosed")]);
    assert!(matches!(err, Err(AppserviceError::InvalidRegex(ref message)) if !message.is_empty()));
    let info = RegistrationInfo::new(registration(vec![ns(true, "[")]), "@bridgebot:example.org".to_owned());
    assert!(info.is_err());
}

#[test]
fn users_namespace_matches_local_users_only() {
    let info = RegistrationInfo::new(
        registration(vec![ns(true, "^@irc_.*"), ns(false, "^@guest_.*")]),
        "@bridgebot:example.org".to_owned(),
    )
    .unwrap();
    assert!(info.is_user_match("@bridgebot:example.org"));
    assert!(info.is_exclusive_user_match("@bridgebot:example.org"));
    assert!(info.is_user_match("@irc_alice:example.org"));
    assert!(info.is_exclusive_user_match("@irc_alice:example.org"));
    assert!(!info.is_user_match("@irc_alice:other.org"));
    assert!(info.is_user_match("@guest_bob:example.org"));
    assert!(!info.is_exclusive_user_match("@guest_bob:example.org"));
    assert!(!info.is_user_match("@carol:example.org"));
    assert!(info.aliases.is_match("#BRIDGE_room:example.org"));
    assert!(info.rooms.is_match("!Bridge1:example.org"));
    assert!(!info.rooms.is_match("!bridge1:example.org"));
}
