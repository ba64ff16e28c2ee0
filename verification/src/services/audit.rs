//! The tamper-evident, hash-chained audit log.
//!
//! Each entry is stored in the [`Domain::AuditLog`] domain under its 8-byte
//! big-endian sequence number as `prev_hash (32 bytes) || payload`, and its
//! own hash is `SHA-256(seq_be || prev_hash || payload)`, which becomes the
//! next entry's `prev_hash`. Verification walks the chain checking sequence
//! contiguity and link integrity, and confirms the persisted chain still
//! hashes to the in-process head — catching both a broken mid-chain link and
//! a rewrite of the final entry.

use vstd::prelude::*;

use crate::services::be::{be_u64, push_be_u64, read_be_u64, u64_from_be};
use crate::services::digest::{sha256, sha256_digest};
use crate::store::backend::{entries_view, scan_view, Entry, OpValue};
use crate::store::{Domain, DynStore, StoreError};

verus! {

/// Length of a SHA-256 digest, the per-entry chain link.
pub const HASH_LEN: usize = 32;

/// The predecessor hash of the first entry: 32 zero bytes.
pub open spec fn genesis() -> Seq<u8> {
    Seq::new(32, |i: int| 0u8)
}

/// One audit record: its sequence number and opaque payload.
pub type AuditEntry = (u64, Vec<u8>);

/// One stored entry: its sequence number, predecessor hash and payload.
pub type RawEntry = (u64, Vec<u8>, Vec<u8>);

/// The value of a stored entry.
pub type RawView = (u64, Seq<u8>, Seq<u8>);

/// The values of a sequence of stored entries.
pub open spec fn raw_view(raw: Seq<RawEntry>) -> Seq<RawView> {
    raw.map_values(|e: RawEntry| (e.0, e.1@, e.2@))
}

/// Failures of the audit log.
#[derive(Debug)]
pub enum AuditError {
    /// The storage backend failed.
    Store(StoreError),
    /// A stored key is not an 8-byte sequence number.
    MalformedKey,
    /// The stored entry with this sequence number is shorter than a hash.
    TooShort(u64),
    /// The chain skips or repeats a sequence number here.
    SequenceGap(u64),
    /// The entry with this sequence number does not link to its predecessor.
    BrokenLink(u64),
    /// The stored chain no longer hashes to the running head.
    HeadMismatch,
}

/// The hash of an entry: `SHA-256(seq_be || prev_hash || payload)`.
pub open spec fn entry_hash_of(seq: u64, prev: Seq<u8>, payload: Seq<u8>) -> Seq<u8> {
    sha256_digest(be_u64(seq) + prev + payload)
}

/// The hash of an entry: `SHA-256(seq_be || prev_hash || payload)`.
fn entry_hash(seq: u64, prev: &[u8], payload: &[u8]) -> (r: Vec<u8>)
    ensures
        r@ == entry_hash_of(seq, prev@, payload@),
        r@.len() == HASH_LEN,
{
    let mut data: Vec<u8> = Vec::new();
    push_be_u64(&mut data, seq);
    let ghost d0 = data@;
    data.extend_from_slice(prev);
    assert(data@ =~= d0 + prev@);
    let ghost d1 = data@;
    data.extend_from_slice(payload);
    assert(data@ =~= d1 + payload@);
    sha256(data.as_slice())
}

/// The state the chain walk reaches from position `i`, expecting sequence
/// number `seq` and predecessor hash `prev` there, or the first fault.
pub open spec fn chain_walk(raw: Seq<RawView>, i: int, seq: u64, prev: Seq<u8>) -> Result<(u64, Seq<u8>), AuditError>
    decreases raw.len() - i,
{
    if i < 0 || i >= raw.len() {
        Ok((seq, prev))
    } else if raw[i].0 != seq {
        Err(AuditError::SequenceGap(raw[i].0))
    } else if raw[i].1 != prev {
        Err(AuditError::BrokenLink(raw[i].0))
    } else {
        chain_walk(raw, i + 1, seq.saturating_add(1), entry_hash_of(raw[i].0, raw[i].1, raw[i].2))
    }
}

/// The verdict on a stored chain against the running head: the first
/// sequence gap or broken link, else whether the chain ends at the head.
pub open spec fn chain_verdict(raw: Seq<RawView>, next_seq: u64, hash: Seq<u8>) -> Result<(), AuditError> {
    match chain_walk(raw, 0, 0, genesis()) {
        Err(e) => Err(e),
        Ok(tip) => if tip.1 == hash && tip.0 == next_seq {
            Ok(())
        } else {
            Err(AuditError::HeadMismatch)
        },
    }
}

/// The genesis hash: 32 zero bytes.
fn genesis_hash() -> (r: Vec<u8>)
    ensures
        r@ == genesis(),
{
    let mut hash: Vec<u8> = Vec::new();
    let mut k: usize = 0;
    while k < HASH_LEN
        invariant
            k <= HASH_LEN,
            hash@ =~= Seq::new(k as nat, |i: int| 0u8),
        decreases HASH_LEN - k,
    {
        hash.push(0u8);
        k = k + 1;
    }
    hash
}

/// Verify a stored chain (ascending by sequence number) against the running
/// head.
pub fn verify_chain(raw: &[RawEntry], next_seq: u64, hash: &[u8]) -> (r: Result<(), AuditError>)
    ensures
        r == chain_verdict(raw_view(raw@), next_seq, hash@),
{
    let ghost rv = raw_view(raw@);
    let mut expected_prev = genesis_hash();
    let mut expected_seq: u64 = 0;
    let mut i: usize = 0;
    while i < raw.len()
        invariant
            rv == raw_view(raw@),
            i <= raw@.len(),
            chain_walk(rv, 0, 0, genesis()) == chain_walk(rv, i as int, expected_seq, expected_prev@),
        decreases raw@.len() - i,
    {
        let (seq, prev, payload) = (&raw[i].0, &raw[i].1, &raw[i].2);
        proof {
            assert(rv[i as int] == (raw@[i as int].0, raw@[i as int].1@, raw@[i as int].2@));
        }
        if *seq != expected_seq {
            return Err(AuditError::SequenceGap(*seq));
        }
        if crate::bytes::compare_bytes(prev.as_slice(), expected_prev.as_slice()) != 0 {
            return Err(AuditError::BrokenLink(*seq));
        }
        expected_prev = entry_hash(*seq, prev.as_slice(), payload.as_slice());
        expected_seq = seq.saturating_add(1);
        i = i + 1;
    }
    if crate::bytes::compare_bytes(expected_prev.as_slice(), hash) != 0 || expected_seq != next_seq {
        return Err(AuditError::HeadMismatch);
    }
    Ok(())
}

/// The running head a stored chain resumes from: the successor of its last
/// entry, or the genesis head when it is empty.
pub open spec fn recovered_head(raw: Seq<RawView>) -> (u64, Seq<u8>) {
    if raw.len() == 0 {
        (0, genesis())
    } else {
        let last = raw.last();
        (last.0.saturating_add(1), entry_hash_of(last.0, last.1, last.2))
    }
}

/// The mutable tail of the chain.
pub struct ChainHead {
    /// The next sequence number to assign.
    pub next_seq: u64,
    /// The hash of the last appended entry (or the genesis hash when empty).
    pub hash: Vec<u8>,
}

/// The chain head that stored entries (ascending) leave: the successor of
/// the last entry, or the genesis head when there are none.
pub fn head_of_chain(raw: &[RawEntry]) -> (r: ChainHead)
    ensures
        (r.next_seq, r.hash@) == recovered_head(raw_view(raw@)),
{
    let mut head = ChainHead { next_seq: 0, hash: genesis_hash() };
    let mut i: usize = 0;
    while i < raw.len()
        invariant
            i <= raw@.len(),
            (head.next_seq, head.hash@) == recovered_head(raw_view(raw@).take(i as int)),
        decreases raw@.len() - i,
    {
        head.hash = entry_hash(raw[i].0, raw[i].1.as_slice(), raw[i].2.as_slice());
        head.next_seq = raw[i].0.saturating_add(1);
        proof {
            assert(raw_view(raw@).take(i + 1).last() == raw_view(raw@)[i as int]);
        }
        i = i + 1;
    }
    proof {
        assert(raw_view(raw@).take(raw@.len() as int) =~= raw_view(raw@));
    }
    head
}

/// The decoding of one stored `(key, value)`: the 8-byte big-endian sequence
/// number of the key, and the value split after the predecessor hash.
pub open spec fn decode_entry(key: Seq<u8>, value: Seq<u8>) -> Result<RawView, AuditError> {
    if key.len() != 8 {
        Err(AuditError::MalformedKey)
    } else if value.len() < 32 {
        Err(AuditError::TooShort(u64_from_be(key)))
    } else {
        Ok((u64_from_be(key), value.subrange(0, 32), value.subrange(32, value.len() as int)))
    }
}

/// The decoding of a scan, stopping at the first malformed entry.
pub open spec fn decode_scan(scanned: Seq<(Seq<u8>, Seq<u8>)>) -> Result<Seq<RawView>, AuditError>
    decreases scanned.len(),
{
    if scanned.len() == 0 {
        Ok(Seq::empty())
    } else {
        match decode_scan(scanned.drop_last()) {
            Err(e) => Err(e),
            Ok(prefix) => match decode_entry(scanned.last().0, scanned.last().1) {
                Err(e) => Err(e),
                Ok(entry) => Ok(prefix.push(entry)),
            },
        }
    }
}

/// Decode the scanned `(key, value)` entries of the audit domain into
/// `(seq, prev_hash, payload)`, in scan order.
pub fn decode_raw(scanned: &[Entry<Vec<u8>>]) -> (r: Result<Vec<RawEntry>, AuditError>)
    ensures
        match r {
            Ok(raw) => decode_scan(entries_view(scanned@)) == Ok::<Seq<RawView>, AuditError>(raw_view(raw@)),
            Err(e) => decode_scan(entries_view(scanned@)) == Err::<Seq<RawView>, AuditError>(e),
        },
{
    let ghost sv = entries_view(scanned@);
    let mut out: Vec<RawEntry> = Vec::new();
    let mut i: usize = 0;
    proof {
        assert(sv.take(0) =~= Seq::<(Seq<u8>, Seq<u8>)>::empty());
        assert(raw_view(out@) =~= Seq::<RawView>::empty());
    }
    while i < scanned.len()
        invariant
            sv == entries_view(scanned@),
            i <= scanned@.len(),
            decode_scan(sv.take(i as int)) == Ok::<Seq<RawView>, AuditError>(raw_view(out@)),
        decreases scanned@.len() - i,
    {
        proof {
            assert(sv.take(i + 1).drop_last() =~= sv.take(i as int));
            assert(sv.take(i + 1).last() == sv[i as int]);
        }
        let key = scanned[i].0.as_slice();
        let value = scanned[i].1.as_slice();
        if key.len() != 8 {
            proof {
                lemma_decode_scan_error_persists(sv, i as int + 1);
            }
            return Err(AuditError::MalformedKey);
        }
        let seq = read_be_u64(key, 0);
        proof {
            assert(key@.subrange(0, 8) =~= key@);
        }
        if value.len() < HASH_LEN {
            proof {
                lemma_decode_scan_error_persists(sv, i as int + 1);
            }
            return Err(AuditError::TooShort(seq));
        }
        let prev = crate::bytes::copy_range(value, 0, HASH_LEN);
        let payload = crate::bytes::copy_range(value, HASH_LEN, value.len());
        let ghost o0 = out@;
        out.push((seq, prev, payload));
        proof {
            assert(raw_view(out@) =~= raw_view(o0).push((seq, value@.subrange(0, 32), value@.subrange(32, value@.len() as int))));
        }
        i = i + 1;
    }
    proof {
        assert(sv.take(scanned@.len() as int) =~= sv);
    }
    Ok(out)
}

/// A decoding fault in a prefix of a scan is the fault of the whole scan.
proof fn lemma_decode_scan_error_persists(s: Seq<(Seq<u8>, Seq<u8>)>, n: int)
    requires
        0 <= n <= s.len(),
        decode_scan(s.take(n)) is Err,
    ensures
        decode_scan(s) == decode_scan(s.take(n)),
    decreases s.len() - n,
{
    if n < s.len() {
        assert(s.take(n + 1).drop_last() =~= s.take(n));
        lemma_decode_scan_error_persists(s, n + 1);
    } else {
        assert(s.take(n) =~= s);
    }
}

/// What a read of the log gives when the scan of the whole audit domain
/// gave `g`: the decoded entries, the first malformed entry, or the store's
/// failure.
pub open spec fn log_read(g: Result<Seq<(Seq<u8>, Seq<u8>)>, StoreError>) -> Result<Seq<RawView>, AuditError> {
    match g {
        Ok(s) => decode_scan(s),
        Err(e) => Err(AuditError::Store(e)),
    }
}

/// Whether `raw` is what a read of the log in `store` can give: the decoding
/// of a result that `store`'s scan of the whole audit domain can give.
pub open spec fn readable_chain(store: DynStore, raw: Seq<RawView>) -> bool {
    exists|g: Result<Seq<(Seq<u8>, Seq<u8>)>, StoreError>|
        #[trigger] store.scan_gives(Domain::AuditLog, Seq::<u8>::empty(), g)
        && log_read(g) == Ok::<Seq<RawView>, AuditError>(raw)
}

/// Whether `e` is a failure a read of the log in `store` can give: the
/// failure of `store`'s scan of the audit domain, or the first malformed
/// entry of what that scan gave.
pub open spec fn read_fault(store: DynStore, e: AuditError) -> bool {
    exists|g: Result<Seq<(Seq<u8>, Seq<u8>)>, StoreError>|
        #[trigger] store.scan_gives(Domain::AuditLog, Seq::<u8>::empty(), g)
        && log_read(g) == Err::<Seq<RawView>, AuditError>(e)
}

/// The payloads of stored entries, with their sequence numbers.
pub open spec fn payloads(raw: Seq<RawView>) -> Seq<(u64, Seq<u8>)> {
    raw.map_values(|e: RawView| (e.0, e.2))
}

/// The values of audit entries.
pub open spec fn entries_of(v: Seq<AuditEntry>) -> Seq<(u64, Seq<u8>)> {
    v.map_values(|e: AuditEntry| (e.0, e.1@))
}

/// The last `n` of `s` (all of them when there are fewer).
pub open spec fn last_n<T>(s: Seq<T>, n: nat) -> Seq<T> {
    s.subrange(s.len() - (if s.len() > n { n as int } else { s.len() as int }), s.len() as int)
}

/// The payloads of stored entries, with their sequence numbers.
fn strip_links(raw: Vec<RawEntry>) -> (r: Vec<AuditEntry>)
    ensures
        entries_of(r@) == payloads(raw_view(raw@)),
        r@.len() == raw@.len(),
        forall|i: int| 0 <= i < r@.len() ==> (#[trigger] r@[i]).0 == raw@[i].0 && r@[i].1@ == raw@[i].2@,
{
    let mut out: Vec<AuditEntry> = Vec::new();
    let mut i: usize = 0;
    while i < raw.len()
        invariant
            i <= raw@.len(),
            out@.len() == i,
            forall|j: int| 0 <= j < i ==> (#[trigger] out@[j]).0 == raw@[j].0 && out@[j].1@ == raw@[j].2@,
        decreases raw@.len() - i,
    {
        out.push((raw[i].0, crate::bytes::copy_bytes(raw[i].2.as_slice())));
        i = i + 1;
    }
    assert(entries_of(out@) =~= payloads(raw_view(raw@)));
    out
}

/// The last `n` of `all` (all of them when there are fewer).
fn keep_last(all: Vec<AuditEntry>, n: usize) -> (r: Vec<AuditEntry>)
    ensures
        r@ == last_n(all@, n as nat),
{
    let mut all = all;
    let start = if all.len() > n { all.len() - n } else { 0 };
    all.split_off(start)
}

/// Read every stored entry of the audit domain as `(seq, prev_hash,
/// payload)`, ascending.
fn read_raw(store: &DynStore) -> (r: Result<Vec<RawEntry>, AuditError>)
    ensures
        match r {
            Ok(raw) => readable_chain(*store, raw_view(raw@)),
            Err(e) => read_fault(*store, e),
        },
{
    let empty: [u8; 0] = [];
    let scanned = store.prefix_scan(Domain::AuditLog, &empty);
    let ghost g = scan_view(scanned);
    proof {
        assert(empty@ =~= Seq::<u8>::empty());
        assert(store.scan_gives(Domain::AuditLog, Seq::<u8>::empty(), g));
    }
    match scanned {
        Ok(scanned) => decode_raw(scanned.as_slice()),
        Err(e) => Err(AuditError::Store(e)),
    }
}

/// Recover the chain head from the store at startup: the head the stored
/// chain leaves.
pub fn recover_head(store: &DynStore) -> (r: Result<ChainHead, AuditError>)
    ensures
        match r {
            Ok(head) => exists|raw: Seq<RawView>| #[trigger] readable_chain(*store, raw)
                && (head.next_seq, head.hash@) == recovered_head(raw),
            Err(e) => read_fault(*store, e),
        },
{
    let raw = read_raw(store)?;
    let head = head_of_chain(raw.as_slice());
    proof {
        assert(readable_chain(*store, raw_view(raw@)));
    }
    Ok(head)
}

/// The hash-chained audit log over a store.
pub struct AuditLog {
    store: DynStore,
    head: ChainHead,
}

impl AuditLog {
    /// The next sequence number to assign.
    pub closed spec fn next_seq(&self) -> u64 {
        self.head.next_seq
    }

    /// The hash of the last appended entry.
    pub closed spec fn head_hash_view(&self) -> Seq<u8> {
        self.head.hash@
    }

    /// The store the log reads and appends to.
    pub closed spec fn store_view(&self) -> DynStore {
        self.store
    }

    /// Whether `r` is a result a commit of `ops` to the log's store can give.
    pub closed spec fn commit_gives(&self, ops: Seq<OpValue>, r: Result<(), StoreError>) -> bool {
        self.store.commit_gives(ops, r)
    }


    /// Open the audit log over `store`, resuming the chain from what it
    /// holds.
    pub fn open(store: DynStore) -> (r: Result<AuditLog, AuditError>)
        ensures
            match r {
                Ok(log) => {
                    &&& log.store_view() == store
                    &&& exists|raw: Seq<RawView>| #[trigger] readable_chain(store, raw)
                        && (log.next_seq(), log.head_hash_view()) == recovered_head(raw)
                },
                Err(e) => read_fault(store, e),
            },
    {
        let head = recover_head(&store)?;
        Ok(AuditLog { store, head })
    }

    /// Open an audit log over `store` at the genesis head, without reading
    /// what the store holds.
    pub fn fresh(store: DynStore) -> (r: AuditLog)
        ensures
            r.store_view() == store,
            r.next_seq() == 0,
            r.head_hash_view() == genesis(),
    {
        AuditLog { store, head: ChainHead { next_seq: 0, hash: genesis_hash() } }
    }

    /// Append `payload` to the audit log, returning its assigned sequence
    /// number. The entry commits to the current chain head, and the head
    /// advances to this entry's hash; when the store refuses the write the
    /// head stays.
    pub fn append(&mut self, payload: &[u8]) -> (r: Result<u64, AuditError>)
        ensures
            match r {
                Ok(seq) => {
                    &&& seq == old(self).next_seq()
                    &&& final(self).next_seq() == seq.saturating_add(1)
                    &&& final(self).head_hash_view() == entry_hash_of(seq, old(self).head_hash_view(), payload@)
                },
                Err(e) => {
                    &&& e is Store
                    &&& final(self).next_seq() == old(self).next_seq()
                    &&& final(self).head_hash_view() == old(self).head_hash_view()
                },
            },
            exists|g: Result<(), StoreError>| #[trigger] old(self).commit_gives(
                seq![(Domain::AuditLog, be_u64(old(self).next_seq()), Some(old(self).head_hash_view() + payload@))], g)
                && (g is Ok <==> r is Ok) && (g matches Err(e) ==> r == Err::<u64, AuditError>(AuditError::Store(e))),
            final(self).store_view() == old(self).store_view(),
            forall|ops: Seq<OpValue>, g: Result<(), StoreError>| #[trigger] final(self).commit_gives(ops, g)
                == old(self).commit_gives(ops, g),
    {
        let seq = self.head.next_seq;
        let this_hash = entry_hash(seq, self.head.hash.as_slice(), payload);
        let mut value = crate::bytes::copy_bytes(self.head.hash.as_slice());
        value.extend_from_slice(payload);
        let mut key: Vec<u8> = Vec::new();
        push_be_u64(&mut key, seq);
        proof {
            assert(key@ =~= be_u64(seq));
            assert(value@ =~= old(self).head_hash_view() + payload@);
        }
        let ghost ops = seq![(Domain::AuditLog, key@, Some(value@))];
        let put = self.store.put(Domain::AuditLog, key, value);
        proof {
            assert(ops =~= seq![(Domain::AuditLog, be_u64(old(self).next_seq()), Some(old(self).head_hash_view() + payload@))]);
            assert(old(self).commit_gives(
                seq![(Domain::AuditLog, be_u64(old(self).next_seq()), Some(old(self).head_hash_view() + payload@))], put));
        }
        match put {
            Ok(()) => {
                self.head.next_seq = seq.saturating_add(1);
                self.head.hash = this_hash;
                Ok(seq)
            },
            Err(e) => Err(AuditError::Store(e)),
        }
    }

    /// All audit entries, ascending by sequence number.
    pub fn entries(&self) -> (r: Result<Vec<AuditEntry>, AuditError>)
        ensures
            match r {
                Ok(v) => exists|raw: Seq<RawView>| #[trigger] readable_chain(self.store_view(), raw)
                    && entries_of(v@) == payloads(raw),
                Err(e) => read_fault(self.store_view(), e),
            },
    {
        let raw = read_raw(&self.store)?;
        let ghost rv = raw_view(raw@);
        let v = strip_links(raw);
        proof {
            assert(readable_chain(self.store_view(), rv));
        }
        Ok(v)
    }

    /// The most recent `n` audit entries, ascending by sequence number.
    pub fn tail(&self, n: usize) -> (r: Result<Vec<AuditEntry>, AuditError>)
        ensures
            match r {
                Ok(v) => exists|raw: Seq<RawView>| #[trigger] readable_chain(self.store_view(), raw)
                    && entries_of(v@) == last_n(payloads(raw), n as nat),
                Err(e) => read_fault(self.store_view(), e),
            },
    {
        let all = self.entries()?;
        let ghost raw = choose|raw: Seq<RawView>| #[trigger] readable_chain(self.store_view(), raw)
            && entries_of(all@) == payloads(raw);
        let v = keep_last(all, n);
        proof {
            assert(entries_of(v@) =~= last_n(payloads(raw), n as nat));
        }
        Ok(v)
    }

    /// The number of entries currently recorded.
    pub fn count(&self) -> (r: Result<usize, AuditError>)
        ensures
            match r {
                Ok(c) => exists|raw: Seq<RawView>| #[trigger] readable_chain(self.store_view(), raw) && c == raw.len(),
                Err(e) => read_fault(self.store_view(), e),
            },
    {
        let raw = read_raw(&self.store)?;
        proof {
            assert(readable_chain(self.store_view(), raw_view(raw@)));
        }
        Ok(raw.len())
    }

    /// The current chain-head hash — `SHA-256` over the whole appended chain
    /// (or the genesis value when empty).
    pub fn head_hash(&self) -> (r: Vec<u8>)
        ensures
            r@ == self.head_hash_view(),
    {
        crate::bytes::copy_bytes(self.head.hash.as_slice())
    }

    /// Verify the integrity of the stored hash chain against the running
    /// head: the first sequence gap, too-short entry, broken link, or a head
    /// mismatch (the final entry was rewritten) is reported.
    pub fn verify(&self) -> (r: Result<(), AuditError>)
        ensures
            match r {
                Ok(()) => exists|raw: Seq<RawView>| #[trigger] readable_chain(self.store_view(), raw)
                    && chain_verdict(raw, self.next_seq(), self.head_hash_view()) == Ok::<(), AuditError>(()),
                Err(e) => read_fault(self.store_view(), e) || exists|raw: Seq<RawView>|
                    #[trigger] readable_chain(self.store_view(), raw)
                    && chain_verdict(raw, self.next_seq(), self.head_hash_view()) == Err::<(), AuditError>(e),
            },
    {
        let raw = read_raw(&self.store)?;
        let r = verify_chain(raw.as_slice(), self.head.next_seq, self.head.hash.as_slice());
        proof {
            assert(readable_chain(self.store_view(), raw_view(raw@)));
        }
        r
    }
}

} // verus!
