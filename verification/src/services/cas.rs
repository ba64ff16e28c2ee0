//! Content-addressed media storage: a blob is named by the SHA-256 of its
//! bytes, so identical content is stored exactly once and a content id is a
//! self-verifying integrity check. The content id is the URL-safe base64 of
//! the hash; blobs live in the [`Domain::MediaBlobs`] domain keyed by the raw
//! hash.

use vstd::prelude::*;
use vstd::string::*;

use crate::services::digest::{
    base64_url_bytes, base64_url_text, decode_base64_url, encode_base64_url, sha256, sha256_digest,
};
use crate::store::backend::{presence, read_view, scan_view};
use crate::store::{Domain, DynStore, StoreError};

verus! {

/// Failures of the content-addressed store.
#[derive(Debug)]
pub enum CasError {
    /// The content id is not URL-safe base64.
    InvalidId,
    /// The storage backend failed.
    Store(StoreError),
}

/// The content id of some bytes: the URL-safe base64 of their SHA-256.
pub open spec fn content_id_of(bytes: Seq<u8>) -> Seq<char> {
    base64_url_text(sha256_digest(bytes))
}

/// The content id of `bytes`: base64 (URL-safe, no pad) of their SHA-256.
/// The same bytes always yield the same id.
pub fn content_id(bytes: &[u8]) -> (r: String)
    ensures
        r@ == content_id_of(bytes@),
        base64_url_bytes(r@) == Some(sha256_digest(bytes@)),
{
    let digest = sha256(bytes);
    encode_base64_url(digest.as_slice())
}

/// Decode a content id back to the raw hash used as the store key.
pub fn decode_id(content_id: &str) -> (r: Result<Vec<u8>, CasError>)
    ensures
        match r {
            Ok(key) => base64_url_bytes(content_id@) == Some(key@),
            Err(e) => base64_url_bytes(content_id@) == None::<Seq<u8>> && e is InvalidId,
        },
{
    match decode_base64_url(content_id) {
        Some(key) => Ok(key),
        None => Err(CasError::InvalidId),
    }
}

/// The directory of a blob in the shared backend: the id's first two bytes
/// when they end on a character boundary, else `__`.
pub open spec fn blob_shard(id: Seq<char>) -> Seq<char> {
    let b = vstd::utf8::encode_utf8(id);
    if b.len() >= 2 && vstd::utf8::is_char_boundary(b, 2) {
        vstd::utf8::decode_utf8(b.subrange(0, 2))
    } else {
        "__"@
    }
}

/// The object-store path of a blob in the shared backend:
/// `media_cas/<shard>/<id>`, sharded by the first two id characters to keep
/// directories shallow.
pub fn blob_path(content_id: &str) -> (r: String)
    ensures
        r@ == "media_cas/"@ + blob_shard(content_id@) + "/"@ + content_id@,
{
    let bytes = content_id.as_bytes();
    let shard: String = if bytes.len() >= 2 && content_id.is_char_boundary(2) {
        let (head, _rest) = content_id.split_at(2);
        proof {
            vstd::utf8::encode_utf8_decode_utf8(head@);
            assert(head.spec_bytes() =~= vstd::utf8::encode_utf8(content_id@).subrange(0, 2));
        }
        head.to_owned()
    } else {
        "__".to_owned()
    };
    proof {
        assert(shard@ == blob_shard(content_id@));
    }
    let r = String::from_str("media_cas/").concat(shard.as_str()).concat("/").concat(content_id);
    r
}

/// Store `bytes` under their content hash, returning the content id.
/// Identical content is stored exactly once (a re-store writes the same key).
pub fn store_blob(store: &DynStore, bytes: &[u8]) -> (r: Result<String, CasError>)
    ensures
        match r {
            Ok(id) => id@ == content_id_of(bytes@) && base64_url_bytes(id@) == Some(sha256_digest(bytes@)),
            Err(e) => e is Store,
        },
        exists|g: Result<(), StoreError>| #[trigger] store.commit_gives(
            seq![(Domain::MediaBlobs, sha256_digest(bytes@), Some(bytes@))], g)
            && (g is Ok <==> r is Ok) && (g matches Err(e) ==> r == Err::<String, CasError>(CasError::Store(e))),
{
    let id = content_id(bytes);
    let key = sha256(bytes);
    let value = crate::bytes::copy_bytes(bytes);
    let ghost ops = seq![(Domain::MediaBlobs, key@, Some(value@))];
    let put = store.put(Domain::MediaBlobs, key, value);
    proof {
        assert(ops =~= seq![(Domain::MediaBlobs, sha256_digest(bytes@), Some(bytes@))]);
        assert(store.commit_gives(seq![(Domain::MediaBlobs, sha256_digest(bytes@), Some(bytes@))], put));
    }
    match put {
        Ok(()) => Ok(id),
        Err(e) => Err(CasError::Store(e)),
    }
}

/// A read's result as the content store reports it.
pub open spec fn cas_read(r: Result<Option<Seq<u8>>, StoreError>) -> Result<Option<Seq<u8>>, CasError> {
    match r {
        Ok(v) => Ok(v),
        Err(e) => Err(CasError::Store(e)),
    }
}

/// The value of a blob lookup's result.
pub open spec fn blob_view(r: Result<Option<Vec<u8>>, CasError>) -> Result<Option<Seq<u8>>, CasError> {
    match r {
        Ok(Some(v)) => Ok(Some(v@)),
        Ok(None) => Ok(None),
        Err(e) => Err(e),
    }
}

/// Load the blob for `content_id`, if present. A malformed id is refused.
pub fn load_blob(store: &DynStore, content_id: &str) -> (r: Result<Option<Vec<u8>>, CasError>)
    ensures
        (r matches Err(CasError::InvalidId)) <==> base64_url_bytes(content_id@) == None::<Seq<u8>>,
        base64_url_bytes(content_id@) is Some ==> exists|g: Result<Option<Seq<u8>>, StoreError>|
            #[trigger] store.read_gives(Domain::MediaBlobs, base64_url_bytes(content_id@)->Some_0, g) && blob_view(r) == cas_read(g),
{
    let key = match decode_id(content_id) {
        Ok(key) => key,
        Err(e) => {
            return Err(e);
        },
    };
    let got = store.get(Domain::MediaBlobs, key.as_slice());
    let ghost g = read_view(got);
    let r = match got {
        Ok(found) => Ok(found),
        Err(e) => Err(CasError::Store(e)),
    };
    proof {
        assert(blob_view(r) == cas_read(g));
        assert(base64_url_bytes(content_id@)->Some_0 == key@);
        assert(store.read_gives(Domain::MediaBlobs, base64_url_bytes(content_id@)->Some_0, g));
    }
    r
}

/// Whether a blob with `content_id` is stored. A malformed id is refused.
pub fn has_blob(store: &DynStore, content_id: &str) -> (r: Result<bool, CasError>)
    ensures
        (r matches Err(CasError::InvalidId)) <==> base64_url_bytes(content_id@) == None::<Seq<u8>>,
        base64_url_bytes(content_id@) is Some ==> exists|g: Result<Option<Seq<u8>>, StoreError>|
            #[trigger] store.read_gives(Domain::MediaBlobs, base64_url_bytes(content_id@)->Some_0, g) && r == (match g {
                Ok(v) => Ok::<bool, CasError>(v is Some),
                Err(e) => Err(CasError::Store(e)),
            }),
{
    let key = match decode_id(content_id) {
        Ok(key) => key,
        Err(e) => {
            return Err(e);
        },
    };
    let found = store.contains(Domain::MediaBlobs, key.as_slice());
    let ghost g = choose|g: Result<Option<Seq<u8>>, StoreError>| #[trigger] store.read_gives(Domain::MediaBlobs, key@, g) && found == presence(g);
    let r = match found {
        Ok(found) => Ok(found),
        Err(e) => Err(CasError::Store(e)),
    };
    proof {
        assert(r == (match g {
            Ok(v) => Ok::<bool, CasError>(v is Some),
            Err(e) => Err(CasError::Store(e)),
        }));
        assert(base64_url_bytes(content_id@)->Some_0 == key@);
        assert(store.read_gives(Domain::MediaBlobs, base64_url_bytes(content_id@)->Some_0, g));
    }
    r
}

/// The number of distinct content-addressed blobs in the store: the number
/// of entries a scan of the whole media domain gives, or that scan's failure.
pub fn blob_count(store: &DynStore) -> (r: Result<usize, CasError>)
    ensures
        exists|g: Result<Seq<(Seq<u8>, Seq<u8>)>, StoreError>|
            #[trigger] store.scan_gives(Domain::MediaBlobs, Seq::<u8>::empty(), g)
            && r == (match g {
                Ok(s) => Ok::<usize, CasError>(s.len() as usize),
                Err(e) => Err(CasError::Store(e)),
            }),
{
    let empty: [u8; 0] = [];
    let scanned = store.prefix_scan(Domain::MediaBlobs, &empty);
    let ghost g = scan_view(scanned);
    proof {
        assert(empty@ =~= Seq::<u8>::empty());
        assert(store.scan_gives(Domain::MediaBlobs, Seq::<u8>::empty(), g));
    }
    match scanned {
        Ok(scanned) => Ok(scanned.len()),
        Err(e) => Err(CasError::Store(e)),
    }
}

} // verus!
