//! Node backends.
//!
//! A backend stores trie nodes addressed by digest.  Two interchangeable
//! variants expose one read/write contract: `MemoryBackend` holds the node
//! set in a process-local sorted list, and `PersistentBackend` delegates
//! to an external embedded key/value store through the `KvStore`
//! capability.  Writing an already present digest/bytes pair again is
//! observably a no-op, and `commit` makes a whole transaction's writes
//! visible as one unit.

use vstd::prelude::*;
use crate::bytes::clone_bytes;
use crate::kvmap::{entries_view, Kv};

verus! {

/// A node map with a write batch applied in order.
pub open spec fn store_all(
    m: Map<Seq<u8>, Seq<u8>>,
    writes: Seq<(Seq<u8>, Seq<u8>)>,
) -> Map<Seq<u8>, Seq<u8>>
    decreases writes.len(),
{
    if writes.len() == 0 {
        m
    } else {
        store_all(m, writes.drop_last()).insert(writes.last().0, writes.last().1)
    }
}

/// Storage for trie nodes addressed by their digest.
pub trait Backend: Sized {
    /// The node set held: digest to node bytes.
    spec fn nodes(&self) -> Map<Seq<u8>, Seq<u8>>;

    /// The backend's internal invariant.
    spec fn inv(&self) -> bool;

    /// Read a node; absence is reported, never invented.
    fn get(&self, digest: &Vec<u8>) -> (r: Option<Vec<u8>>)
        requires
            self.inv(),
        ensures
            match r {
                Some(v) => self.nodes().contains_key(digest@) && v@ == self.nodes()[digest@],
                None => !self.nodes().contains_key(digest@),
            },
    ;

    /// Write one node.
    fn put(&mut self, digest: Vec<u8>, bytes: Vec<u8>)
        requires
            old(self).inv(),
        ensures
            final(self).inv(),
            final(self).nodes() == old(self).nodes().insert(digest@, bytes@),
    ;

    /// Write a whole transaction's nodes as one unit.
    fn commit(&mut self, writes: &Vec<(Vec<u8>, Vec<u8>)>)
        requires
            old(self).inv(),
        ensures
            final(self).inv(),
            final(self).nodes() == store_all(old(self).nodes(), entries_view(writes@)),
    ;
}

/// The in-memory backend: the node set lives in a process-local sorted list.
pub struct MemoryBackend {
    pub store: Kv,
}

impl MemoryBackend {
    /// An empty in-memory backend.
    pub fn new() -> (r: MemoryBackend)
        ensures
            r.inv(),
            r.nodes() == Map::<Seq<u8>, Seq<u8>>::empty(),
    {
        MemoryBackend { store: Kv::new() }
    }
}

impl Backend for MemoryBackend {
    open spec fn nodes(&self) -> Map<Seq<u8>, Seq<u8>> {
        self.store@
    }

    open spec fn inv(&self) -> bool {
        self.store.wf()
    }

    fn get(&self, digest: &Vec<u8>) -> (r: Option<Vec<u8>>) {
        self.store.get(digest)
    }

    fn put(&mut self, digest: Vec<u8>, bytes: Vec<u8>) {
        self.store.set(digest, bytes);
    }

    fn commit(&mut self, writes: &Vec<(Vec<u8>, Vec<u8>)>) {
        let ghost pre = self.store@;
        let ghost wv = entries_view(writes@);
        let mut i: usize = 0;
        while i < writes.len()
            invariant
                0 <= i <= writes@.len(),
                wv == entries_view(writes@),
                self.store.wf(),
                self.store@ == store_all(pre, wv.subrange(0, i as int)),
            decreases writes@.len() - i,
        {
            let d = clone_bytes(&writes[i].0);
            let b = clone_bytes(&writes[i].1);
            self.store.set(d, b);
            proof {
                let part = wv.subrange(0, i + 1 as int);
                assert(part.drop_last() =~= wv.subrange(0, i as int));
                assert(part.last() == wv[i as int]);
            }
            i = i + 1;
        }
        assert(wv.subrange(0, wv.len() as int) =~= wv);
    }
}

/// The external embedded key/value store behind the persistent backend:
/// raw byte blobs addressed by byte keys.  A deployment implements this
/// over its store; `write_batch` must make all writes durable together.
pub trait KvStore: Sized {
    /// The blob set held.  An implementation outside the verified world
    /// may leave the default, which claims nothing.
    open spec fn blobs(&self) -> Map<Seq<u8>, Seq<u8>> {
        Map::empty()
    }

    /// The store's internal invariant.
    open spec fn inv(&self) -> bool {
        true
    }

    /// Read a blob.
    fn read(&self, key: &Vec<u8>) -> (r: Option<Vec<u8>>)
        requires
            self.inv(),
        ensures
            match r {
                Some(v) => self.blobs().contains_key(key@) && v@ == self.blobs()[key@],
                None => !self.blobs().contains_key(key@),
            },
    ;

    /// Write one blob.
    fn write(&mut self, key: Vec<u8>, value: Vec<u8>)
        requires
            old(self).inv(),
        ensures
            final(self).inv(),
            final(self).blobs() == old(self).blobs().insert(key@, value@),
    ;

    /// Write a batch of blobs atomically.
    fn write_batch(&mut self, writes: &Vec<(Vec<u8>, Vec<u8>)>)
        requires
            old(self).inv(),
        ensures
            final(self).inv(),
            final(self).blobs() == store_all(old(self).blobs(), entries_view(writes@)),
    ;
}

/// The persistent backend: node set held in an external key/value store.
pub struct PersistentBackend<S: KvStore> {
    pub store: S,
}

impl<S: KvStore> PersistentBackend<S> {
    /// A persistent backend over a store.
    pub fn with_store(store: S) -> (r: PersistentBackend<S>)
        requires
            store.inv(),
        ensures
            r.inv(),
            r.nodes() == store.blobs(),
    {
        PersistentBackend { store }
    }
}

impl<S: KvStore> Backend for PersistentBackend<S> {
    open spec fn nodes(&self) -> Map<Seq<u8>, Seq<u8>> {
        self.store.blobs()
    }

    open spec fn inv(&self) -> bool {
        self.store.inv()
    }

    fn get(&self, digest: &Vec<u8>) -> (r: Option<Vec<u8>>) {
        self.store.read(digest)
    }

    fn put(&mut self, digest: Vec<u8>, bytes: Vec<u8>) {
        self.store.write(digest, bytes);
    }

    fn commit(&mut self, writes: &Vec<(Vec<u8>, Vec<u8>)>) {
        self.store.write_batch(writes);
    }
}

/// An in-memory `KvStore`, standing in for an embedded store in tests and
/// exercising the persistent backend's code path.
pub struct MemoryKvStore {
    pub blobs_kv: Kv,
}

impl MemoryKvStore {
    /// An empty store.
    pub fn new() -> (r: MemoryKvStore)
        ensures
            r.inv(),
            r.blobs() == Map::<Seq<u8>, Seq<u8>>::empty(),
    {
        MemoryKvStore { blobs_kv: Kv::new() }
    }
}

impl KvStore for MemoryKvStore {
    open spec fn blobs(&self) -> Map<Seq<u8>, Seq<u8>> {
        self.blobs_kv@
    }

    open spec fn inv(&self) -> bool {
        self.blobs_kv.wf()
    }

    fn read(&self, key: &Vec<u8>) -> (r: Option<Vec<u8>>) {
        self.blobs_kv.get(key)
    }

    fn write(&mut self, key: Vec<u8>, value: Vec<u8>) {
        self.blobs_kv.set(key, value);
    }

    fn write_batch(&mut self, writes: &Vec<(Vec<u8>, Vec<u8>)>) {
        let ghost pre = self.blobs_kv@;
        let ghost wv = entries_view(writes@);
        let mut i: usize = 0;
        while i < writes.len()
            invariant
                0 <= i <= writes@.len(),
                wv == entries_view(writes@),
                self.blobs_kv.wf(),
                self.blobs_kv@ == store_all(pre, wv.subrange(0, i as int)),
            decreases writes@.len() - i,
        {
            let d = clone_bytes(&writes[i].0);
            let b = clone_bytes(&writes[i].1);
            self.blobs_kv.set(d, b);
            proof {
                let part = wv.subrange(0, i + 1 as int);
                assert(part.drop_last() =~= wv.subrange(0, i as int));
                assert(part.last() == wv[i as int]);
            }
            i = i + 1;
        }
        assert(wv.subrange(0, wv.len() as int) =~= wv);
    }
}

} // verus!
