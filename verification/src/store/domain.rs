//! The per-domain column-family model.
//!
//! The store has nine column families, each with its own stable on-disk
//! name, isolating access patterns so a backend can tune compression,
//! caching, and partitioning per family: events, room state, the auth-chain
//! index, the resolved-state cache, media metadata, the device store, the key
//! store, account data, and the tamper-evident audit log. [`Domain::ALL`]
//! lists exactly these, and a backend opens one column family per entry.
//!
//! Every other logical store lives inside one of these nine families, as a
//! keyspace of its own: agent approvals, the agent registry, federation
//! health and agent rate-limit windows in account data; content-addressed
//! media blobs in media metadata; the outbound federation queue in events.
//! Such a keyspace is addressed as a [`Domain`] like a column family, and a
//! backend keeps it apart from the rest of its host family (a durable backend
//! by a reserved key prefix built from [`Domain::keyspace_tag`]).

use vstd::prelude::*;

use crate::bytes::compare_bytes;

verus! {

/// The number of column families.
pub const DOMAIN_COUNT: usize = 9;

/// The number of keyspaces: the column families and the keyspaces hosted
/// inside them.
pub const KEYSPACE_COUNT: usize = 15;

/// A logical storage domain: one of the nine column families, or a keyspace
/// hosted inside one of them.
///
/// The set is closed and stable: column-family names and keyspace tags are
/// part of the on-disk contract.
#[derive(Clone, Copy, Debug, PartialEq, Eq, Structural, PartialOrd, Ord, Hash)]
pub enum Domain {
    /// Persisted Matrix events (PDUs) keyed by event id.
    Events,
    /// Current and historical room state mappings.
    RoomState,
    /// The authorization-chain index used by state resolution.
    AuthChainIndex,
    /// Memoised outputs of the state-resolution algorithm.
    ResolvedStateCache,
    /// Metadata for media blobs (the blobs themselves live in the object store).
    MediaMetadata,
    /// Per-device records (one-time keys, device lists, display data).
    DeviceStore,
    /// Cross-signing, key-backup, and key-claiming material (no plaintext).
    KeyStore,
    /// Per-user and per-room account data.
    AccountData,
    /// The tamper-evident, hash-chained audit log of agent actions.
    AuditLog,
    /// Per-call agent approval state; a keyspace of account data.
    AgentApprovals,
    /// Provisioned agent identities keyed by user id; a keyspace of account
    /// data.
    AgentRegistry,
    /// Content-addressed media blobs keyed by their SHA-256; a keyspace of
    /// media metadata.
    MediaBlobs,
    /// Queued outbound federation traffic, keyed `destination \0 seq_be`; a
    /// keyspace of events.
    FederationQueue,
    /// Per-destination federation backoff, keyed by destination; a keyspace
    /// of account data.
    FederationHealth,
    /// Fixed-window agent tool-call counters, keyed `agent \0 room \0 tool`;
    /// a keyspace of account data.
    AgentRateLimits,
}

/// The stable position of a domain (its declaration order): the column
/// families first, then the hosted keyspaces.
pub open spec fn domain_index(d: Domain) -> int {
    match d {
        Domain::Events => 0,
        Domain::RoomState => 1,
        Domain::AuthChainIndex => 2,
        Domain::ResolvedStateCache => 3,
        Domain::MediaMetadata => 4,
        Domain::DeviceStore => 5,
        Domain::KeyStore => 6,
        Domain::AccountData => 7,
        Domain::AuditLog => 8,
        Domain::AgentApprovals => 9,
        Domain::AgentRegistry => 10,
        Domain::MediaBlobs => 11,
        Domain::FederationQueue => 12,
        Domain::FederationHealth => 13,
        Domain::AgentRateLimits => 14,
    }
}

/// Whether `d` is one of the nine column families.
pub open spec fn is_column_family(d: Domain) -> bool {
    domain_index(d) < DOMAIN_COUNT
}

/// The column family that holds `d`: `d` itself for a column family, the
/// host family for a keyspace.
pub open spec fn column_family_of(d: Domain) -> Domain {
    match d {
        Domain::AgentApprovals => Domain::AccountData,
        Domain::AgentRegistry => Domain::AccountData,
        Domain::MediaBlobs => Domain::MediaMetadata,
        Domain::FederationQueue => Domain::Events,
        Domain::FederationHealth => Domain::AccountData,
        Domain::AgentRateLimits => Domain::AccountData,
        _ => d,
    }
}

/// The tag that sets a hosted keyspace apart inside its column family; none
/// for a column family itself.
pub open spec fn keyspace_tag_of(d: Domain) -> Option<u8> {
    match d {
        Domain::AgentApprovals => Some(1u8),
        Domain::AgentRegistry => Some(2u8),
        Domain::MediaBlobs => Some(3u8),
        Domain::FederationQueue => Some(4u8),
        Domain::FederationHealth => Some(5u8),
        Domain::AgentRateLimits => Some(6u8),
        _ => None,
    }
}

/// The stable on-disk name of a column family.
pub open spec fn family_name(d: Domain) -> Seq<char> {
    match d {
        Domain::Events => "events"@,
        Domain::RoomState => "room_state"@,
        Domain::AuthChainIndex => "auth_chain_index"@,
        Domain::ResolvedStateCache => "resolved_state_cache"@,
        Domain::MediaMetadata => "media_metadata"@,
        Domain::DeviceStore => "device_store"@,
        Domain::KeyStore => "key_store"@,
        Domain::AccountData => "account_data"@,
        _ => "audit_log"@,
    }
}

/// The on-disk name of the column family that holds `d`.
pub open spec fn domain_name(d: Domain) -> Seq<char> {
    family_name(column_family_of(d))
}

/// The domain at a given position of the declaration order.
pub open spec fn domain_at(i: int) -> Domain {
    if i == 0 { Domain::Events }
    else if i == 1 { Domain::RoomState }
    else if i == 2 { Domain::AuthChainIndex }
    else if i == 3 { Domain::ResolvedStateCache }
    else if i == 4 { Domain::MediaMetadata }
    else if i == 5 { Domain::DeviceStore }
    else if i == 6 { Domain::KeyStore }
    else if i == 7 { Domain::AccountData }
    else if i == 8 { Domain::AuditLog }
    else if i == 9 { Domain::AgentApprovals }
    else if i == 10 { Domain::AgentRegistry }
    else if i == 11 { Domain::MediaBlobs }
    else if i == 12 { Domain::FederationQueue }
    else if i == 13 { Domain::FederationHealth }
    else { Domain::AgentRateLimits }
}

/// The nine column families, in declaration order.
pub open spec fn column_families() -> Seq<Domain> {
    seq![
        Domain::Events,
        Domain::RoomState,
        Domain::AuthChainIndex,
        Domain::ResolvedStateCache,
        Domain::MediaMetadata,
        Domain::DeviceStore,
        Domain::KeyStore,
        Domain::AccountData,
        Domain::AuditLog,
    ]
}

impl Domain {
    /// Every column family, in declaration order. Backends open one column
    /// family per entry.
    pub const ALL: [Domain; 9] = [
        Domain::Events,
        Domain::RoomState,
        Domain::AuthChainIndex,
        Domain::ResolvedStateCache,
        Domain::MediaMetadata,
        Domain::DeviceStore,
        Domain::KeyStore,
        Domain::AccountData,
        Domain::AuditLog,
    ];

    /// The stable on-disk name of the column family that holds this domain.
    pub fn name(self) -> (r: &'static str)
        ensures
            r@ == domain_name(self),
    {
        match self.column_family() {
            Domain::Events => "events",
            Domain::RoomState => "room_state",
            Domain::AuthChainIndex => "auth_chain_index",
            Domain::ResolvedStateCache => "resolved_state_cache",
            Domain::MediaMetadata => "media_metadata",
            Domain::DeviceStore => "device_store",
            Domain::KeyStore => "key_store",
            Domain::AccountData => "account_data",
            _ => "audit_log",
        }
    }

    /// The column family that holds this domain: itself for a column family,
    /// its host for a keyspace.
    pub fn column_family(self) -> (r: Domain)
        ensures
            r == column_family_of(self),
            is_column_family(r),
    {
        match self {
            Domain::AgentApprovals => Domain::AccountData,
            Domain::AgentRegistry => Domain::AccountData,
            Domain::MediaBlobs => Domain::MediaMetadata,
            Domain::FederationQueue => Domain::Events,
            Domain::FederationHealth => Domain::AccountData,
            Domain::AgentRateLimits => Domain::AccountData,
            _ => self,
        }
    }

    /// The tag that sets this keyspace apart inside its column family, or
    /// `None` for a column family itself.
    pub fn keyspace_tag(self) -> (r: Option<u8>)
        ensures
            r == keyspace_tag_of(self),
    {
        match self {
            Domain::AgentApprovals => Some(1u8),
            Domain::AgentRegistry => Some(2u8),
            Domain::MediaBlobs => Some(3u8),
            Domain::FederationQueue => Some(4u8),
            Domain::FederationHealth => Some(5u8),
            Domain::AgentRateLimits => Some(6u8),
            _ => None,
        }
    }

    /// The stable index of this domain, suitable for array-backed dispatch:
    /// below [`DOMAIN_COUNT`] for a column family, its position in
    /// [`Domain::ALL`].
    pub fn index(self) -> (r: usize)
        ensures
            r as int == domain_index(self),
            r < KEYSPACE_COUNT,
    {
        match self {
            Domain::Events => 0,
            Domain::RoomState => 1,
            Domain::AuthChainIndex => 2,
            Domain::ResolvedStateCache => 3,
            Domain::MediaMetadata => 4,
            Domain::DeviceStore => 5,
            Domain::KeyStore => 6,
            Domain::AccountData => 7,
            Domain::AuditLog => 8,
            Domain::AgentApprovals => 9,
            Domain::AgentRegistry => 10,
            Domain::MediaBlobs => 11,
            Domain::FederationQueue => 12,
            Domain::FederationHealth => 13,
            Domain::AgentRateLimits => 14,
        }
    }

    /// Resolve a column family from its on-disk name.
    pub fn from_name(name: &str) -> (r: Option<Domain>)
        ensures
            match r {
                Some(d) => is_column_family(d) && domain_name(d) == name@,
                None => forall|d: Domain| domain_name(d) != name@,
            },
            forall|d: Domain| is_column_family(d) ==> (#[trigger] domain_name(d) == name@ <==> r == Some(d)),
    {
        let mut i: usize = 0;
        while i < DOMAIN_COUNT
            invariant
                i <= DOMAIN_COUNT,
                forall|j: int| 0 <= j < i ==> domain_name(#[trigger] domain_at(j)) != name@,
            decreases DOMAIN_COUNT - i,
        {
            let d = domain_from_index(i);
            let candidate = d.name();
            let c = compare_bytes(candidate.as_bytes(), name.as_bytes());
            if c == 0 {
                proof {
                    vstd::utf8::encode_utf8_decode_utf8(candidate@);
                    vstd::utf8::encode_utf8_decode_utf8(name@);
                    assert forall|e: Domain| is_column_family(e) implies (#[trigger] domain_name(e) == name@ <==> Some(d) == Some(e)) by {
                        lemma_domain_names_distinct(d, e);
                    }
                }
                return Some(d);
            }
            i = i + 1;
        }
        proof {
            assert forall|d: Domain| domain_name(d) != name@ by {
                let f = column_family_of(d);
                assert(domain_at(domain_index(f)) == f);
                assert(domain_name(f) == domain_name(d));
            }
        }
        None
    }
}

/// The column family at position `i` of the declaration order.
fn domain_from_index(i: usize) -> (d: Domain)
    requires
        i < DOMAIN_COUNT,
    ensures
        d == domain_at(i as int),
        domain_index(d) == i,
        is_column_family(d),
{
    match i {
        0 => Domain::Events,
        1 => Domain::RoomState,
        2 => Domain::AuthChainIndex,
        3 => Domain::ResolvedStateCache,
        4 => Domain::MediaMetadata,
        5 => Domain::DeviceStore,
        6 => Domain::KeyStore,
        7 => Domain::AccountData,
        _ => Domain::AuditLog,
    }
}

/// Each domain sits at its own position of the declaration order, and each
/// position holds the domain at it; the column families are exactly the
/// first nine, the entries of [`Domain::ALL`].
pub proof fn lemma_domain_index_round_trip(d: Domain, i: int)
    ensures
        0 <= domain_index(d) < KEYSPACE_COUNT,
        domain_at(domain_index(d)) == d,
        0 <= i < KEYSPACE_COUNT ==> domain_index(domain_at(i)) == i,
        is_column_family(d) <==> column_families().contains(d),
        0 <= i < DOMAIN_COUNT ==> column_families()[i] == domain_at(i),
        Domain::ALL@ == column_families(),
{
    assert(Domain::ALL@ =~= column_families());
    if is_column_family(d) {
        assert(column_families()[domain_index(d)] == d);
    }
}

/// Every domain lives in one of the nine column families: a column family
/// holds itself and has no keyspace tag, and each hosted keyspace has a tag
/// no other domain has.
pub proof fn lemma_keyspaces_hosted(a: Domain, b: Domain)
    ensures
        is_column_family(column_family_of(a)),
        is_column_family(a) ==> column_family_of(a) == a && keyspace_tag_of(a) is None,
        !is_column_family(a) ==> keyspace_tag_of(a) is Some,
        a != b && keyspace_tag_of(a) is Some ==> keyspace_tag_of(a) != keyspace_tag_of(b),
{
}

/// Distinct column families have distinct on-disk names.
pub proof fn lemma_domain_names_distinct(a: Domain, b: Domain)
    requires
        is_column_family(a),
        is_column_family(b),
    ensures
        domain_name(a) == domain_name(b) ==> a == b,
{
    reveal_strlit("events");
    reveal_strlit("room_state");
    reveal_strlit("auth_chain_index");
    reveal_strlit("resolved_state_cache");
    reveal_strlit("media_metadata");
    reveal_strlit("device_store");
    reveal_strlit("key_store");
    reveal_strlit("account_data");
    reveal_strlit("audit_log");
    if domain_name(a) == domain_name(b) && a != b {
        assert(domain_name(a).len() == domain_name(b).len());
        assert(domain_name(a)[0] == domain_name(b)[0]);
        assert(domain_name(a)[1] == domain_name(b)[1]);
    }
}

} // verus!
