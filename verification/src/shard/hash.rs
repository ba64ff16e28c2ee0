//! The fixed, portable placement hash: 64-bit FNV-1a followed by a splitmix64
//! finalizer, so every front-end places a room identically without
//! coordination.

use vstd::prelude::*;
use vstd::wrapping::u64_specs::wrapping_mul;

use crate::bytes::copy_bytes;

verus! {

/// FNV-1a 64-bit offset basis.
pub const FNV_OFFSET: u64 = 0xCBF2_9CE4_8422_2325;

/// FNV-1a 64-bit prime.
pub const FNV_PRIME: u64 = 0x0000_0100_0000_01B3;

/// One FNV-1a step: fold `byte` into `state`.
pub open spec fn fnv_step(state: u64, byte: u8) -> u64 {
    wrapping_mul(state ^ (byte as u64), FNV_PRIME)
}

/// FNV-1a over `data`.
pub open spec fn fnv1a(data: Seq<u8>) -> u64
    decreases data.len(),
{
    if data.len() == 0 {
        FNV_OFFSET
    } else {
        fnv_step(fnv1a(data.drop_last()), data.last())
    }
}

/// The splitmix64 finalizing mix.
pub open spec fn mix(z: u64) -> u64 {
    let z1 = wrapping_mul(z ^ (z >> 30u64), 0xBF58_476D_1CE4_E5B9u64);
    let z2 = wrapping_mul(z1 ^ (z1 >> 27u64), 0x94D0_49BB_1331_11EBu64);
    z2 ^ (z2 >> 31u64)
}

/// The placement hash of `data`.
pub open spec fn place_hash(data: Seq<u8>) -> u64 {
    mix(fnv1a(data))
}

/// The big-endian bytes of `v`.
pub open spec fn be32(v: u32) -> Seq<u8> {
    seq![(v >> 24u32) as u8, (v >> 16u32) as u8, (v >> 8u32) as u8, v as u8]
}

/// The key hashed to place a shard's `vnode`-th virtual node:
/// the shard's bytes, `#`, and the big-endian index.
pub open spec fn vnode_key(shard: Seq<u8>, vnode: u32) -> Seq<u8> {
    shard + seq![35u8] + be32(vnode)
}

/// A uniform 64-bit hash: FNV-1a followed by a splitmix64 finalizer.
pub fn hash(data: &[u8]) -> (r: u64)
    ensures
        r == place_hash(data@),
{
    let mut state: u64 = FNV_OFFSET;
    let mut i: usize = 0;
    while i < data.len()
        invariant
            i <= data@.len(),
            state == fnv1a(data@.subrange(0, i as int)),
        decreases data@.len() - i,
    {
        proof {
            assert(data@.subrange(0, i + 1).drop_last() =~= data@.subrange(0, i as int));
        }
        state = (state ^ (data[i] as u64)).wrapping_mul(FNV_PRIME);
        i = i + 1;
    }
    assert(data@.subrange(0, data@.len() as int) =~= data@);
    finalize(state)
}

/// splitmix64 finalizing mix.
pub fn finalize(z: u64) -> (r: u64)
    ensures
        r == mix(z),
{
    let z1 = (z ^ (z >> 30)).wrapping_mul(0xBF58_476D_1CE4_E5B9);
    let z2 = (z1 ^ (z1 >> 27)).wrapping_mul(0x94D0_49BB_1331_11EB);
    z2 ^ (z2 >> 31)
}

/// The ring point for a shard's `vnode`-th virtual node.
pub fn virtual_node_hash(shard: &str, vnode: u32) -> (r: u64)
    ensures
        r == place_hash(vnode_key(vstd::utf8::encode_utf8(shard@), vnode)),
{
    let mut key = copy_bytes(shard.as_bytes());
    key.push(35u8);
    key.push((vnode >> 24) as u8);
    key.push((vnode >> 16) as u8);
    key.push((vnode >> 8) as u8);
    key.push(vnode as u8);
    assert(key@ =~= vnode_key(vstd::utf8::encode_utf8(shard@), vnode));
    hash(key.as_slice())
}

} // verus!
