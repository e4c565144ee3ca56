//! Canonical node encoding.
//!
//! A trie node is the canonical byte serialization of a sorted entry list:
//! an eight-byte little-endian entry count followed by each key and value,
//! every byte string prefixed with its eight-byte little-endian length.
//! The engine stores one such node per trie under the trie's root digest.

use vstd::prelude::*;
use crate::kvmap::entries_view;

verus! {

/// Eight little-endian bytes of a 64-bit number.
pub open spec fn u64_le(x: u64) -> Seq<u8> {
    seq![
        (x % 256) as u8,
        ((x / 0x100) % 256) as u8,
        ((x / 0x10000) % 256) as u8,
        ((x / 0x1000000) % 256) as u8,
        ((x / 0x100000000) % 256) as u8,
        ((x / 0x10000000000) % 256) as u8,
        ((x / 0x1000000000000) % 256) as u8,
        ((x / 0x100000000000000) % 256) as u8,
    ]
}

/// A length-prefixed byte string.
pub open spec fn blob(b: Seq<u8>) -> Seq<u8> {
    u64_le(b.len() as u64) + b
}

/// The body of a node: each entry's key and value, length-prefixed.
pub open spec fn encode_body(s: Seq<(Seq<u8>, Seq<u8>)>) -> Seq<u8>
    decreases s.len(),
{
    if s.len() == 0 {
        Seq::empty()
    } else {
        encode_body(s.drop_last()) + blob(s.last().0) + blob(s.last().1)
    }
}

/// The full node serialization of an entry list.
pub open spec fn encode_entries(s: Seq<(Seq<u8>, Seq<u8>)>) -> Seq<u8> {
    u64_le(s.len() as u64) + encode_body(s)
}

/// Append the little-endian bytes of `x`.
fn push_u64_le(out: &mut Vec<u8>, x: u64)
    ensures
        final(out)@ == old(out)@ + u64_le(x),
{
    let ghost pre = out@;
    out.push((x % 256) as u8);
    out.push(((x / 0x100) % 256) as u8);
    out.push(((x / 0x10000) % 256) as u8);
    out.push(((x / 0x1000000) % 256) as u8);
    out.push(((x / 0x100000000) % 256) as u8);
    out.push(((x / 0x10000000000) % 256) as u8);
    out.push(((x / 0x1000000000000) % 256) as u8);
    out.push(((x / 0x100000000000000) % 256) as u8);
    assert(out@ =~= pre + u64_le(x));
}

/// Append a length-prefixed byte string.
fn push_blob(out: &mut Vec<u8>, b: &Vec<u8>)
    ensures
        final(out)@ == old(out)@ + blob(b@),
{
    let ghost pre = out@;
    push_u64_le(out, b.len() as u64);
    let mut i: usize = 0;
    while i < b.len()
        invariant
            0 <= i <= b@.len(),
            out@ == pre + u64_le(b@.len() as u64) + b@.subrange(0, i as int),
        decreases b@.len() - i,
    {
        out.push(b[i]);
        assert(out@ =~= pre + u64_le(b@.len() as u64) + b@.subrange(0, i + 1 as int));
        i = i + 1;
    }
    assert(b@.subrange(0, b@.len() as int) =~= b@);
    assert(out@ =~= pre + blob(b@));
}

/// Serialize an entry list into its node bytes.
pub fn encode(entries: &Vec<(Vec<u8>, Vec<u8>)>) -> (r: Vec<u8>)
    ensures
        r@ == encode_entries(entries_view(entries@)),
{
    let ghost view = entries_view(entries@);
    let mut out: Vec<u8> = Vec::new();
    push_u64_le(&mut out, entries.len() as u64);
    proof {
        assert(view.len() == entries@.len());
        assert(out@ =~= u64_le(view.len() as u64) + encode_body(view.subrange(0, 0)));
    }
    let mut i: usize = 0;
    while i < entries.len()
        invariant
            0 <= i <= entries@.len(),
            view == entries_view(entries@),
            view.len() == entries@.len(),
            out@ == u64_le(view.len() as u64) + encode_body(view.subrange(0, i as int)),
        decreases entries@.len() - i,
    {
        push_blob(&mut out, &entries[i].0);
        push_blob(&mut out, &entries[i].1);
        proof {
            let part = view.subrange(0, i + 1 as int);
            assert(part.drop_last() =~= view.subrange(0, i as int));
            assert(part.last() == view[i as int]);
            assert(view[i as int] == (entries@[i as int].0@, entries@[i as int].1@));
            assert(out@ =~= u64_le(view.len() as u64) + encode_body(part));
        }
        i = i + 1;
    }
    assert(view.subrange(0, view.len() as int) =~= view);
    out
}

} // verus!
