//! Storage abstraction and in-memory reference backend.

use gaussmatrix::store::{Domain, DynStore, MemBackend, Op, Store, StoreError, WriteBatch};

fn store() -> Store<MemBackend> {
    Store::new(MemBackend::new())
}

#[test]
fn domain_names_are_unique_and_roundtrip() {
    let mut seen = std::collections::BTreeSet::new();
    for domain in Domain::ALL {
        assert!(seen.insert(domain.name()), "duplicate domain name: {}", domain.name());
        assert_eq!(Domain::from_name(domain.name()), Some(domain));
        assert_eq!(Domain::ALL[domain.index()], domain);
    }
    assert_eq!(seen.len(), Domain::ALL.len());
    assert_eq!(Domain::from_name("nonexistent"), None);
}

#[test]
fn put_then_get() {
    let s = store();
    s.put(Domain::Events, b"k".to_vec(), b"v".to_vec()).unwrap();
    let got = s.get(Domain::Events, b"k").unwrap();
    assert_eq!(got.as_deref(), Some(&b"v"[..]));
    assert_eq!(s.get(Domain::Events, b"absent").unwrap().as_deref(), None);
}

#[test]
fn overwrite_replaces_value() {
    let s = store();
    s.put(Domain::AccountData, b"k".to_vec(), b"v1".to_vec()).unwrap();
    s.put(Domain::AccountData, b"k".to_vec(), b"v2".to_vec()).unwrap();
    assert_eq!(s.get(Domain::AccountData, b"k").unwrap().as_deref(), Some(&b"v2"[..]));
}

#[test]
fn delete_removes_key() {
    let s = store();
    s.put(Domain::DeviceStore, b"k".to_vec(), b"v".to_vec()).unwrap();
    assert!(s.contains(Domain::DeviceStore, b"k").unwrap());
    s.delete(Domain::DeviceStore, b"k".to_vec()).unwrap();
    assert!(!s.contains(Domain::DeviceStore, b"k").unwrap());
}

#[test]
fn domains_are_isolated() {
    let s = store();
    s.put(Domain::Events, b"k".to_vec(), b"event".to_vec()).unwrap();
    s.put(Domain::RoomState, b"k".to_vec(), b"state".to_vec()).unwrap();
    assert_eq!(s.get(Domain::Events, b"k").unwrap().as_deref(), Some(&b"event"[..]));
    assert_eq!(s.get(Domain::RoomState, b"k").unwrap().as_deref(), Some(&b"state"[..]));
}

#[test]
fn batch_commits_all_operations_atomically() {
    let s = store();
    s.put(Domain::KeyStore, b"old".to_vec(), b"x".to_vec()).unwrap();

    let mut batch = WriteBatch::new();
    batch
        .put(Domain::Events, b"$e".to_vec(), b"pdu".to_vec())
        .put(Domain::RoomState, b"!r/name".to_vec(), b"$e".to_vec())
        .delete(Domain::KeyStore, b"old".to_vec());
    assert_eq!(batch.len(), 3);
    assert!(!batch.is_empty());

    s.commit(batch).unwrap();

    assert_eq!(s.get(Domain::Events, b"$e").unwrap().as_deref(), Some(&b"pdu"[..]));
    assert_eq!(s.get(Domain::RoomState, b"!r/name").unwrap().as_deref(), Some(&b"$e"[..]));
    assert!(!s.contains(Domain::KeyStore, b"old").unwrap());
}

#[test]
fn prefix_scan_is_ordered_and_bounded() {
    let s = store();
    for key in ["b:1", "a:2", "a:1", "a:10", "c:1"] {
        s.put(Domain::AuditLog, key.as_bytes().to_vec(), b"_".to_vec()).unwrap();
    }

    let hits = s.prefix_scan(Domain::AuditLog, b"a:").unwrap();
    let keys: Vec<_> = hits
        .iter()
        .map(|(k, _)| String::from_utf8(k.to_vec()).unwrap())
        .collect();

    // Only "a:" keys, in ascending byte order.
    assert_eq!(keys, vec!["a:1", "a:10", "a:2"]);
}

#[test]
fn empty_prefix_scans_whole_domain() {
    let s = store();
    s.put(Domain::MediaMetadata, b"m1".to_vec(), b"_".to_vec()).unwrap();
    s.put(Domain::MediaMetadata, b"m2".to_vec(), b"_".to_vec()).unwrap();
    assert_eq!(s.prefix_scan(Domain::MediaMetadata, b"").unwrap().len(), 2);
}

#[test]
fn cloned_store_shares_backend() {
    let s = store();
    let s2 = s.clone();
    s.put(Domain::ResolvedStateCache, b"k".to_vec(), b"v".to_vec()).unwrap();
    assert_eq!(s2.get(Domain::ResolvedStateCache, b"k").unwrap().as_deref(), Some(&b"v"[..]));
}

#[test]
fn auth_chain_index_prefix_isolation() {
    let s = store();
    s.put(Domain::AuthChainIndex, b"room1:a".to_vec(), b"_".to_vec()).unwrap();
    s.put(Domain::AuthChainIndex, b"room2:a".to_vec(), b"_".to_vec()).unwrap();
    assert_eq!(s.prefix_scan(Domain::AuthChainIndex, b"room1:").unwrap().len(), 1);
}

#[test]
fn batch_ops_keep_insertion_order() {
    let mut batch = WriteBatch::new();
    assert!(batch.is_empty());
    batch.delete(Domain::Events, b"a".to_vec()).put(Domain::Events, b"a".to_vec(), b"1".to_vec());
    assert_eq!(
        batch.ops(),
        &[
            Op::Delete { domain: Domain::Events, key: b"a".to_vec() },
            Op::Put { domain: Domain::Events, key: b"a".to_vec(), val: b"1".to_vec() },
        ]
    );
    // Applied in order: the later put wins.
    let s = store();
    s.commit(batch).unwrap();
    assert_eq!(s.get(Domain::Events, b"a").unwrap(), Some(b"1".to_vec()));
}

#[test]
fn later_operation_in_a_batch_wins() {
    let s = store();
    let mut batch = WriteBatch::new();
    batch
        .put(Domain::KeyStore, b"k".to_vec(), b"first".to_vec())
        .put(Domain::KeyStore, b"k".to_vec(), b"second".to_vec())
        .put(Domain::KeyStore, b"gone".to_vec(), b"x".to_vec())
        .delete(Domain::KeyStore, b"gone".to_vec());
    s.commit(batch).unwrap();
    assert_eq!(s.get(Domain::KeyStore, b"k").unwrap(), Some(b"second".to_vec()));
    assert_eq!(s.get(Domain::KeyStore, b"gone").unwrap(), None);
}

#[test]
fn empty_store_holds_nothing() {
    let s = store();
    for domain in Domain::ALL {
        assert_eq!(s.get(domain, b"").unwrap(), None);
        assert!(s.prefix_scan(domain, b"").unwrap().is_empty());
    }
}

#[test]
fn delete_of_absent_key_is_a_no_op() {
    let s = store();
    s.put(Domain::Events, b"a".to_vec(), b"1".to_vec()).unwrap();
    s.delete(Domain::Events, b"b".to_vec()).unwrap();
    assert_eq!(s.prefix_scan(Domain::Events, b"").unwrap().len(), 1);
}

#[test]
fn prefix_scan_returns_values_with_keys() {
    let s = store();
    s.put(Domain::RoomState, b"x:2".to_vec(), b"two".to_vec()).unwrap();
    s.put(Domain::RoomState, b"x:1".to_vec(), b"one".to_vec()).unwrap();
    s.put(Domain::RoomState, b"x".to_vec(), b"bare".to_vec()).unwrap();
    let hits = s.prefix_scan(Domain::RoomState, b"x:").unwrap();
    assert_eq!(
        hits,
        vec![(b"x:1".to_vec(), b"one".to_vec()), (b"x:2".to_vec(), b"two".to_vec())]
    );
}

#[test]
fn dyn_store_round_trips_and_shares() {
    let s = DynStore::new(MemBackend::new());
    let s2 = s.clone();
    s.put(Domain::AgentRegistry, b"@bot:x".to_vec(), b"profile".to_vec()).unwrap();
    assert_eq!(s2.get(Domain::AgentRegistry, b"@bot:x").unwrap(), Some(b"profile".to_vec()));
    assert!(s2.contains(Domain::AgentRegistry, b"@bot:x").unwrap());
    s2.delete(Domain::AgentRegistry, b"@bot:x".to_vec()).unwrap();
    assert!(!s.contains(Domain::AgentRegistry, b"@bot:x").unwrap());
}

#[test]
fn domain_names_match_the_on_disk_contract() {
    assert_eq!(Domain::Events.name(), "events");
    assert_eq!(Domain::AuthChainIndex.name(), "auth_chain_index");
    assert_eq!(Domain::AgentRegistry.name(), "account_data");
    assert_eq!(Domain::AgentRegistry.column_family(), Domain::AccountData);
    assert_eq!(Domain::AgentRegistry.keyspace_tag(), Some(2));
    assert_eq!(Domain::AgentRegistry.index(), 10);
    assert_eq!(Domain::MediaBlobs.column_family(), Domain::MediaMetadata);
    assert_eq!(Domain::FederationQueue.column_family(), Domain::Events);
    assert_eq!(Domain::Events.keyspace_tag(), None);
    assert_eq!(Domain::from_name("audit_log"), Some(Domain::AuditLog));
    assert_eq!(Domain::from_name("agent_registry"), None);
}

#[test]
fn the_nine_column_families() {
    let names: Vec<&str> = Domain::ALL.iter().map(|d| d.name()).collect();
    assert_eq!(
        names,
        vec![
            "events",
            "room_state",
            "auth_chain_index",
            "resolved_state_cache",
            "media_metadata",
            "device_store",
            "key_store",
            "account_data",
            "audit_log",
        ]
    );
    for (i, d) in Domain::ALL.iter().enumerate() {
        assert_eq!(d.index(), i);
        assert_eq!(d.column_family(), *d);
    }
}

#[test]
fn hosted_keyspaces_are_kept_apart() {
    let s = DynStore::new(MemBackend::new());
    s.put(Domain::AccountData, b"k".to_vec(), b"account".to_vec()).unwrap();
    s.put(Domain::AgentRateLimits, b"k".to_vec(), b"window".to_vec()).unwrap();
    assert_eq!(s.get(Domain::AccountData, b"k").unwrap(), Some(b"account".to_vec()));
    assert_eq!(s.get(Domain::AgentRateLimits, b"k").unwrap(), Some(b"window".to_vec()));
    assert_eq!(s.prefix_scan(Domain::AccountData, b"").unwrap().len(), 1);
}

#[test]
fn store_error_messages() {
    assert_eq!(
        StoreError::UnknownDomain(Domain::KeyStore).message(),
        "unknown storage domain: key_store"
    );
    assert_eq!(
        StoreError::Backend("boom".to_owned()).message(),
        "storage backend error: boom"
    );
    assert_eq!(
        StoreError::Unavailable("down".to_owned()).message(),
        "storage backend unavailable: down"
    );
    assert_eq!(
        StoreError::Corrupt("bad".to_owned()).message(),
        "corrupt stored value: bad"
    );
}
