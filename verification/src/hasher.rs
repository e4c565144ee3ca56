//! The pluggable hash capability.
//!
//! The engine is generic over a `Hasher`: a stateless value supplying a
//! deterministic digest of a byte string and a canonical root digest of a
//! sorted key/value entry list.  Both are pinned to the implementation's
//! spec functions, so every root the engine reports is a pure function of
//! trie content.  `Fnv1aHasher` is a small arithmetic hasher implemented
//! and verified here; a deployment may substitute any other implementation
//! of the trait without touching the engine.

use vstd::prelude::*;
use crate::codec::{encode, encode_entries, u64_le};
use crate::kvmap::entries_view;

verus! {

/// A deterministic hash capability with a fixed digest length.
pub trait Hasher: Sized {
    /// The digest of a byte string.
    spec fn hash_spec(data: Seq<u8>) -> Seq<u8>;

    /// The canonical root digest of a sorted key/value entry list.
    spec fn root_spec(entries: Seq<(Seq<u8>, Seq<u8>)>) -> Seq<u8>;

    /// Hash a byte string.
    fn hash(&self, data: &Vec<u8>) -> (r: Vec<u8>)
        ensures
            r@ == Self::hash_spec(data@),
    ;

    /// The root digest over a key/value entry list.
    fn map_root(&self, entries: &Vec<(Vec<u8>, Vec<u8>)>) -> (r: Vec<u8>)
        ensures
            r@ == Self::root_spec(entries_view(entries@)),
    ;
}

pub const FNV_OFFSET: u64 = 0xcbf29ce484222325;

pub const FNV_PRIME: u64 = 0x100000001b3;

/// One Fowler–Noll–Vo round: fold a byte in, multiply modulo 2^64.
pub open spec fn fnv_update(h: u64, b: u8) -> u64 {
    ((((h ^ (b as u64)) as u128) * (FNV_PRIME as u128)) % 0x10000000000000000) as u64
}

/// The FNV-1a state after absorbing a byte string.
pub open spec fn fnv_state(data: Seq<u8>) -> u64
    decreases data.len(),
{
    if data.len() == 0 {
        FNV_OFFSET
    } else {
        fnv_update(fnv_state(data.drop_last()), data.last())
    }
}

/// An eight-byte FNV-1a hasher.
pub struct Fnv1aHasher;

/// The FNV-1a state of a byte string.
fn fnv64(data: &Vec<u8>) -> (h: u64)
    ensures
        h == fnv_state(data@),
{
    let mut h: u64 = FNV_OFFSET;
    proof {
        assert(data@.subrange(0, 0) =~= Seq::<u8>::empty());
    }
    let mut i: usize = 0;
    while i < data.len()
        invariant
            0 <= i <= data@.len(),
            h == fnv_state(data@.subrange(0, i as int)),
        decreases data@.len() - i,
    {
        let x: u64 = h ^ (data[i] as u64);
        proof {
            assert((x as u128) * (FNV_PRIME as u128) < 0x100000000000000000000000000000000)
                by (nonlinear_arith)
                requires
                    x <= 0xffffffffffffffffu64,
            ;
        }
        let wide: u128 = (x as u128) * (FNV_PRIME as u128);
        h = (wide % 0x10000000000000000) as u64;
        proof {
            let part = data@.subrange(0, i + 1 as int);
            assert(part.drop_last() =~= data@.subrange(0, i as int));
            assert(part.last() == data@[i as int]);
        }
        i = i + 1;
    }
    assert(data@.subrange(0, data@.len() as int) =~= data@);
    h
}

/// The little-endian bytes of a 64-bit number.
fn u64_to_le_bytes(x: u64) -> (r: Vec<u8>)
    ensures
        r@ == u64_le(x),
{
    let mut r: Vec<u8> = Vec::new();
    r.push((x % 256) as u8);
    r.push(((x / 0x100) % 256) as u8);
    r.push(((x / 0x10000) % 256) as u8);
    r.push(((x / 0x1000000) % 256) as u8);
    r.push(((x / 0x100000000) % 256) as u8);
    r.push(((x / 0x10000000000) % 256) as u8);
    r.push(((x / 0x1000000000000) % 256) as u8);
    r.push(((x / 0x100000000000000) % 256) as u8);
    assert(r@ =~= u64_le(x));
    r
}

impl Hasher for Fnv1aHasher {
    open spec fn hash_spec(data: Seq<u8>) -> Seq<u8> {
        u64_le(fnv_state(data))
    }

    open spec fn root_spec(entries: Seq<(Seq<u8>, Seq<u8>)>) -> Seq<u8> {
        u64_le(fnv_state(encode_entries(entries)))
    }

    fn hash(&self, data: &Vec<u8>) -> (r: Vec<u8>) {
        u64_to_le_bytes(fnv64(data))
    }

    fn map_root(&self, entries: &Vec<(Vec<u8>, Vec<u8>)>) -> (r: Vec<u8>) {
        let encoded = encode(entries);
        u64_to_le_bytes(fnv64(&encoded))
    }
}

} // verus!
