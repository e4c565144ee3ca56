//! The trie storage engine.
//!
//! `TrieStorage` holds the current committed root, the main and child
//! key/value sets, and a node backend.  `calc_root_if_changes` is the pure
//! root computation: it stages a change batch, recomputes every touched
//! child root, embeds those roots in the staged main set under the
//! reserved prefix, and returns the candidate root together with a
//! self-contained transaction.  Only `apply_changes` mutates the backend.

use vstd::prelude::*;
use crate::backend::{store_all, Backend};
use crate::bytes::clone_bytes;
use crate::changes::{changes_view, child_changes_view, clone_opt, stage, ChildStorageCollection,
    StorageCollection};
use crate::codec::{encode, encode_entries};
use crate::hasher::Hasher;
use crate::kvmap::{canon, entries_view, ChildTable, Kv};

verus! {

/// The reserved main-namespace prefix under which child roots are stored.
/// A child with id `i` owns the main entry at key `0x3a 0x63 ++ i`
/// (":c" followed by the id); main-namespace change keys carrying this
/// prefix are rejected as malformed.
pub open spec fn child_prefix() -> Seq<u8> {
    seq![58u8, 99u8]
}

/// Whether a key lies in the reserved child-root namespace.
pub open spec fn is_reserved_key(k: Seq<u8>) -> bool {
    k.len() >= 2 && k[0] == 58u8 && k[1] == 99u8
}

/// The reserved main-trie key holding a child's root.
pub open spec fn child_key(id: Seq<u8>) -> Seq<u8> {
    child_prefix() + id
}

/// Distinct child ids own distinct reserved keys.
pub proof fn lemma_child_key_injective(a: Seq<u8>, b: Seq<u8>)
    requires
        child_key(a) == child_key(b),
    ensures
        a == b,
{
    assert(child_key(a).len() == 2 + a.len());
    assert(child_key(b).len() == 2 + b.len());
    assert(a.len() == b.len());
    assert forall|i: int| 0 <= i < a.len() implies a[i] == b[i] by {
        assert(child_key(a)[i + 2] == a[i]);
        assert(child_key(b)[i + 2] == b[i]);
    }
    assert(a =~= b);
}

/// Every child-root key is reserved.
pub proof fn lemma_child_key_reserved(id: Seq<u8>)
    ensures
        is_reserved_key(child_key(id)),
{
}

/// Build the reserved key of a child id.
pub fn make_child_key(id: &Vec<u8>) -> (r: Vec<u8>)
    ensures
        r@ == child_key(id@),
{
    let mut r: Vec<u8> = Vec::new();
    r.push(58u8);
    r.push(99u8);
    let mut i: usize = 0;
    while i < id.len()
        invariant
            0 <= i <= id@.len(),
            r@ == child_prefix() + id@.subrange(0, i as int),
        decreases id@.len() - i,
    {
        r.push(id[i]);
        assert(r@ =~= child_prefix() + id@.subrange(0, i + 1 as int));
        i = i + 1;
    }
    assert(r@ =~= child_key(id@));
    r
}

/// Whether a key lies in the reserved child-root namespace.
pub fn key_is_reserved(k: &Vec<u8>) -> (r: bool)
    ensures
        r == is_reserved_key(k@),
{
    k.len() >= 2 && k[0] == 58u8 && k[1] == 99u8
}

/// Why a change batch was rejected.
#[derive(Debug, PartialEq, Eq)]
pub enum StorageError {
    /// A main-namespace change key collides with the reserved child-root
    /// namespace.
    ReservedKey,
}

/// The root a hasher assigns to a key/value map: the canonical root of the
/// map's sorted entry list.
pub open spec fn root_of<H: Hasher>(m: Map<Seq<u8>, Seq<u8>>) -> Seq<u8> {
    H::root_spec(canon(m))
}

/// The staged outcome of a change batch: the staged main map, the staged
/// child table, and the node writes for every recomputed child trie.
pub open spec fn stage_full<H: Hasher>(
    mm: Map<Seq<u8>, Seq<u8>>,
    cm: Map<Seq<u8>, Map<Seq<u8>, Seq<u8>>>,
    cc: Seq<(Seq<u8>, Seq<(Seq<u8>, Option<Seq<u8>>)>)>,
) -> (Map<Seq<u8>, Seq<u8>>, Map<Seq<u8>, Map<Seq<u8>, Seq<u8>>>, Seq<(Seq<u8>, Seq<u8>)>)
    decreases cc.len(),
{
    if cc.len() == 0 {
        (mm, cm, Seq::empty())
    } else {
        let prev = stage_full::<H>(mm, cm, cc.drop_last());
        let id = cc.last().0;
        let base = if prev.1.contains_key(id) {
            prev.1[id]
        } else {
            Map::empty()
        };
        let nk = stage(base, cc.last().1);
        (
            prev.0.insert(child_key(id), root_of::<H>(nk)),
            prev.1.insert(id, nk),
            prev.2.push((root_of::<H>(nk), encode_entries(canon(nk)))),
        )
    }
}

/// What `calc_root_if_changes` returns on an accepted batch, as a function
/// of the engine's content and the batch alone.
pub open spec fn computed<H: Hasher>(
    main: Map<Seq<u8>, Seq<u8>>,
    children: Map<Seq<u8>, Map<Seq<u8>, Seq<u8>>>,
    mcv: Seq<(Seq<u8>, Option<Seq<u8>>)>,
    ccv: Seq<(Seq<u8>, Seq<(Seq<u8>, Option<Seq<u8>>)>)>,
    root: Seq<u8>,
    tx_main: Map<Seq<u8>, Seq<u8>>,
    tx_children: Map<Seq<u8>, Map<Seq<u8>, Seq<u8>>>,
    tx_writes: Seq<(Seq<u8>, Seq<u8>)>,
) -> bool {
    let st = stage_full::<H>(stage(main, mcv), children, ccv);
    &&& tx_main == st.0
    &&& tx_children == st.1
    &&& root == root_of::<H>(st.0)
    &&& tx_writes == if mcv.len() == 0 && ccv.len() == 0 {
        Seq::<(Seq<u8>, Seq<u8>)>::empty()
    } else {
        seq![(root, encode_entries(canon(st.0)))] + st.2
    }
}

/// The node writes and staged content a change batch leads to.  It is
/// produced by `calc_root_if_changes`, consumed by `apply_changes`, and
/// self-contained: discarding it has no effect.
pub struct Transaction {
    /// The nodes to write: the new main node and one node per recomputed
    /// child trie.
    pub writes: Vec<(Vec<u8>, Vec<u8>)>,
    /// The staged main key/value set.
    pub main: Kv,
    /// The staged child table.
    pub children: ChildTable,
}

impl Transaction {
    /// Well-formed: both staged sets are.
    pub open spec fn wf(&self) -> bool {
        self.main.wf() && self.children.wf()
    }
}

/// The trie storage engine over a hasher capability and a node backend.
pub struct TrieStorage<H: Hasher, B: Backend> {
    /// The hash capability.
    pub hasher: H,
    /// The node backend; mutated only by `apply_changes` and `load`.
    pub backend: B,
    /// The current committed root.
    pub root_hash: Vec<u8>,
    /// The main key/value set, reserved child-root entries included.
    pub main: Kv,
    /// The child tries' key/value sets.
    pub children: ChildTable,
}

impl<H: Hasher, B: Backend> TrieStorage<H, B> {
    /// Well-formed: sets are sorted, the backend invariant holds, and the
    /// committed root is the root of the main set.
    pub open spec fn wf(&self) -> bool {
        &&& self.main.wf()
        &&& self.children.wf()
        &&& self.backend.inv()
        &&& self.root_hash@ == root_of::<H>(self.main@)
    }

    /// Whether nothing has been loaded or committed yet.
    pub open spec fn is_empty(&self) -> bool {
        self.main.rep().len() == 0 && self.children.rep().len() == 0
    }

    /// An empty engine over a backend.
    pub fn with_backend(hasher: H, backend: B) -> (r: TrieStorage<H, B>)
        requires
            backend.inv(),
        ensures
            r.wf(),
            r.is_empty(),
            r.main@ == Map::<Seq<u8>, Seq<u8>>::empty(),
            r.children@ == Map::<Seq<u8>, Map<Seq<u8>, Seq<u8>>>::empty(),
            r.backend == backend,
            r.hasher == hasher,
    {
        let main = Kv::new();
        let children = ChildTable::new();
        let root_hash = hasher.map_root(&main.entries);
        proof {
            main.lemma_rep_canon();
        }
        TrieStorage { hasher, backend, root_hash, main, children }
    }

    /// The current committed root.
    pub fn root(&self) -> (r: Vec<u8>)
        ensures
            r@ == self.root_hash@,
    {
        clone_bytes(&self.root_hash)
    }

    /// Look a key up in the main namespace.
    pub fn get(&self, key: &Vec<u8>) -> (r: Option<Vec<u8>>)
        requires
            self.wf(),
        ensures
            match r {
                Some(v) => self.main@.contains_key(key@) && v@ == self.main@[key@],
                None => !self.main@.contains_key(key@),
            },
    {
        self.main.get(key)
    }

    /// Bulk-load an initial key/value set into an empty engine and commit
    /// its root.  On a repeated key the later pair wins.
    pub fn load(&mut self, pairs: &Vec<(Vec<u8>, Vec<u8>)>)
        requires
            old(self).wf(),
            old(self).is_empty(),
        ensures
            final(self).wf(),
            final(self).main@ == crate::kvmap::assoc_map(entries_view(pairs@)),
            final(self).children@ == old(self).children@,
            final(self).root_hash@ == root_of::<H>(final(self).main@),
            final(self).backend.nodes() == old(self).backend.nodes().insert(
                final(self).root_hash@,
                encode_entries(canon(final(self).main@)),
            ),
            final(self).hasher == old(self).hasher,
    {
        let ghost pv = entries_view(pairs@);
        let mut staged = Kv::new();
        let mut i: usize = 0;
        while i < pairs.len()
            invariant
                0 <= i <= pairs@.len(),
                pv == entries_view(pairs@),
                staged.wf(),
                staged@ == crate::kvmap::assoc_map(pv.subrange(0, i as int)),
            decreases pairs@.len() - i,
        {
            let k = clone_bytes(&pairs[i].0);
            let v = clone_bytes(&pairs[i].1);
            staged.set(k, v);
            proof {
                let part = pv.subrange(0, i + 1 as int);
                assert(part.drop_last() =~= pv.subrange(0, i as int));
                assert(part.last() == pv[i as int]);
            }
            i = i + 1;
        }
        assert(pv.subrange(0, pv.len() as int) =~= pv);
        let root = self.hasher.map_root(&staged.entries);
        proof {
            staged.lemma_rep_canon();
        }
        let node = encode(&staged.entries);
        self.backend.put(clone_bytes(&root), node);
        self.main = staged;
        self.root_hash = root;
    }

    /// Compute the root a change batch would produce, without touching the
    /// backend or the engine: the candidate root and a transaction whose
    /// apply commits it.  A main change key inside the reserved child-root
    /// namespace — and only such a key — is rejected.
    pub fn calc_root_if_changes(
        &self,
        main_changes: &StorageCollection,
        child_changes: &ChildStorageCollection,
    ) -> (r: Result<(Vec<u8>, Transaction), StorageError>)
        requires
            self.wf(),
        ensures
            match r {
                Ok((root, tx)) => {
                    &&& tx.wf()
                    &&& computed::<H>(
                        self.main@,
                        self.children@,
                        changes_view(main_changes@),
                        child_changes_view(child_changes@),
                        root@,
                        tx.main@,
                        tx.children@,
                        entries_view(tx.writes@),
                    )
                    &&& root@ == root_of::<H>(tx.main@)
                    &&& forall|i: int|
                        0 <= i < main_changes@.len() ==> !is_reserved_key(
                            (#[trigger] changes_view(main_changes@)[i]).0,
                        )
                    &&& main_changes@.len() == 0 && child_changes@.len() == 0 ==> root@
                        == self.root_hash@ && tx.writes@.len() == 0
                },
                Err(e) => {
                    &&& e is ReservedKey
                    &&& exists|i: int|
                        0 <= i < main_changes@.len() && is_reserved_key(
                            (#[trigger] changes_view(main_changes@)[i]).0,
                        )
                },
            },
    {
        let ghost mcv = changes_view(main_changes@);
        let ghost ccv = child_changes_view(child_changes@);
        let mut staged = self.main.duplicate();
        let mut i: usize = 0;
        while i < main_changes.len()
            invariant
                0 <= i <= main_changes@.len(),
                mcv == changes_view(main_changes@),
                self.wf(),
                staged.wf(),
                staged@ == stage(self.main@, mcv.subrange(0, i as int)),
                forall|j: int| 0 <= j < i ==> !is_reserved_key((#[trigger] mcv[j]).0),
            decreases main_changes@.len() - i,
        {
            let k = &main_changes[i].0;
            if key_is_reserved(k) {
                proof {
                    assert(mcv[i as int].0 == k@);
                }
                return Err(StorageError::ReservedKey);
            }
            let ov = clone_opt(&main_changes[i].1);
            staged.apply_change(clone_bytes(k), ov);
            proof {
                let part = mcv.subrange(0, i + 1 as int);
                assert(part.drop_last() =~= mcv.subrange(0, i as int));
                assert(part.last() == mcv[i as int]);
            }
            i = i + 1;
        }
        proof {
            assert(mcv.subrange(0, mcv.len() as int) =~= mcv);
        }
        let ghost m0 = stage(self.main@, mcv);
        let mut new_children = self.children.duplicate();
        let mut child_writes: Vec<(Vec<u8>, Vec<u8>)> = Vec::new();
        proof {
            assert(entries_view(child_writes@) =~= Seq::<(Seq<u8>, Seq<u8>)>::empty());
            assert(ccv.subrange(0, 0) =~= Seq::<
                (Seq<u8>, Seq<(Seq<u8>, Option<Seq<u8>>)>),
            >::empty());
        }
        let mut j: usize = 0;
        while j < child_changes.len()
            invariant
                0 <= j <= child_changes@.len(),
                ccv == child_changes_view(child_changes@),
                self.wf(),
                staged.wf(),
                new_children.wf(),
                m0 == stage(self.main@, mcv),
                staged@ == stage_full::<H>(m0, self.children@, ccv.subrange(0, j as int)).0,
                new_children@ == stage_full::<H>(m0, self.children@, ccv.subrange(0, j as int)).1,
                entries_view(child_writes@) == stage_full::<H>(
                    m0,
                    self.children@,
                    ccv.subrange(0, j as int),
                ).2,
            decreases child_changes@.len() - j,
        {
            let id = &child_changes[j].0;
            let coll = &child_changes[j].1;
            let ghost cv = changes_view(coll@);
            let ghost base = if new_children@.contains_key(id@) {
                new_children@[id@]
            } else {
                Map::<Seq<u8>, Seq<u8>>::empty()
            };
            let mut ckv = new_children.get_copy(id);
            let mut p: usize = 0;
            while p < coll.len()
                invariant
                    0 <= p <= coll@.len(),
                    cv == changes_view(coll@),
                    ckv.wf(),
                    ckv@ == stage(base, cv.subrange(0, p as int)),
                decreases coll@.len() - p,
            {
                let ck = clone_bytes(&coll[p].0);
                let cov = clone_opt(&coll[p].1);
                ckv.apply_change(ck, cov);
                proof {
                    let part = cv.subrange(0, p + 1 as int);
                    assert(part.drop_last() =~= cv.subrange(0, p as int));
                    assert(part.last() == cv[p as int]);
                }
                p = p + 1;
            }
            proof {
                assert(cv.subrange(0, cv.len() as int) =~= cv);
            }
            let croot = self.hasher.map_root(&ckv.entries);
            proof {
                ckv.lemma_rep_canon();
            }
            let node = encode(&ckv.entries);
            child_writes.push((clone_bytes(&croot), node));
            staged.set(make_child_key(id), clone_bytes(&croot));
            new_children.upsert(clone_bytes(id), ckv);
            proof {
                let part = ccv.subrange(0, j + 1 as int);
                assert(part.drop_last() =~= ccv.subrange(0, j as int));
                assert(part.last() == ccv[j as int]);
                assert(ccv[j as int] == (id@, cv));
                assert(entries_view(child_writes@) =~= stage_full::<H>(
                    m0,
                    self.children@,
                    part,
                ).2);
            }
            j = j + 1;
        }
        proof {
            assert(ccv.subrange(0, ccv.len() as int) =~= ccv);
        }
        let new_root = self.hasher.map_root(&staged.entries);
        proof {
            staged.lemma_rep_canon();
        }
        let mut writes: Vec<(Vec<u8>, Vec<u8>)> = Vec::new();
        if main_changes.len() > 0 || child_changes.len() > 0 {
            let node = encode(&staged.entries);
            writes.push((clone_bytes(&new_root), node));
            writes.append(&mut child_writes);
            proof {
                assert(entries_view(writes@) =~= seq![
                    (new_root@, encode_entries(canon(staged@))),
                ] + stage_full::<H>(m0, self.children@, ccv).2);
            }
        } else {
            proof {
                assert(entries_view(writes@) =~= Seq::<(Seq<u8>, Seq<u8>)>::empty());
            }
        }
        Ok((new_root, Transaction { writes, main: staged, children: new_children }))
    }

    /// Commit a computed transaction: write its nodes to the backend as one
    /// unit, then adopt its staged content and root.  The transaction must
    /// have been computed against the engine's current committed state.
    pub fn apply_changes(&mut self, root: Vec<u8>, transaction: Transaction)
        requires
            old(self).wf(),
            transaction.wf(),
            root@ == root_of::<H>(transaction.main@),
        ensures
            final(self).wf(),
            final(self).root_hash@ == root@,
            final(self).main@ == transaction.main@,
            final(self).children@ == transaction.children@,
            final(self).backend.nodes() == store_all(
                old(self).backend.nodes(),
                entries_view(transaction.writes@),
            ),
            final(self).hasher == old(self).hasher,
    {
        self.backend.commit(&transaction.writes);
        self.main = transaction.main;
        self.children = transaction.children;
        self.root_hash = root;
    }
}

} // verus!
