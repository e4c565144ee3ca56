//! The engine's governing laws.
//!
//! Each public proof function states one guarantee of the engine over the
//! spec functions its contracts use, for every input the law admits.

use vstd::prelude::*;
use crate::backend::Backend;
use crate::changes::{stage, upserts};
use crate::engine::{child_key, computed, lemma_child_key_injective, root_of, stage_full,
    TrieStorage};
use crate::hasher::Hasher;
use crate::kvmap::assoc_map;

verus! {

/// Determinism, build-path half: bulk-loading a key/value list and staging
/// the same list as a change batch of upserts against an empty trie yield
/// one and the same key/value map.
pub proof fn lemma_load_stage_agree(pairs: Seq<(Seq<u8>, Seq<u8>)>)
    ensures
        assoc_map(pairs) == stage(Map::empty(), upserts(pairs)),
    decreases pairs.len(),
{
    if pairs.len() > 0 {
        lemma_load_stage_agree(pairs.drop_last());
        assert(upserts(pairs).drop_last() =~= upserts(pairs.drop_last()));
        assert(upserts(pairs).last() == (pairs.last().0, Some(pairs.last().1)));
    }
}

/// Determinism: an engine that bulk-loaded a key/value list and an engine
/// that staged the same list as upserts over an empty trie report one and
/// the same root.
pub proof fn lemma_determinism<H: Hasher, B1: Backend, B2: Backend>(
    loaded: &TrieStorage<H, B1>,
    built: &TrieStorage<H, B2>,
    pairs: Seq<(Seq<u8>, Seq<u8>)>,
)
    requires
        loaded.wf(),
        built.wf(),
        loaded.main@ == assoc_map(pairs),
        built.main@ == stage(Map::empty(), upserts(pairs)),
    ensures
        loaded.root_hash@ == built.root_hash@,
{
    lemma_load_stage_agree(pairs);
}

/// Determinism and backend equivalence: any two well-formed engines over
/// one hasher holding the same main key/value map — however they were
/// built, and whatever their backends — report one and the same root.
pub proof fn lemma_root_determined_by_content<H: Hasher, B1: Backend, B2: Backend>(
    e1: &TrieStorage<H, B1>,
    e2: &TrieStorage<H, B2>,
)
    requires
        e1.wf(),
        e2.wf(),
        e1.main@ == e2.main@,
    ensures
        e1.root_hash@ == e2.root_hash@,
{
}

/// Purity: the outcome of `calc_root_if_changes` is a function of the
/// engine's content and the change batch alone, so two computations from
/// one state return identical roots and identical transactions — and the
/// operation takes the engine by shared reference, so neither call changes
/// the engine or its reported root.
pub proof fn lemma_compute_purity<H: Hasher>(
    main: Map<Seq<u8>, Seq<u8>>,
    children: Map<Seq<u8>, Map<Seq<u8>, Seq<u8>>>,
    mcv: Seq<(Seq<u8>, Option<Seq<u8>>)>,
    ccv: Seq<(Seq<u8>, Seq<(Seq<u8>, Option<Seq<u8>>)>)>,
    root1: Seq<u8>,
    tx1: (Map<Seq<u8>, Seq<u8>>, Map<Seq<u8>, Map<Seq<u8>, Seq<u8>>>, Seq<(Seq<u8>, Seq<u8>)>),
    root2: Seq<u8>,
    tx2: (Map<Seq<u8>, Seq<u8>>, Map<Seq<u8>, Map<Seq<u8>, Seq<u8>>>, Seq<(Seq<u8>, Seq<u8>)>),
)
    requires
        computed::<H>(main, children, mcv, ccv, root1, tx1.0, tx1.1, tx1.2),
        computed::<H>(main, children, mcv, ccv, root2, tx2.0, tx2.1, tx2.2),
    ensures
        root1 == root2,
        tx1 == tx2,
{
}

/// Round-trip commit: the root computed for a batch is the root the engine
/// reports after applying the batch's transaction, and recomputing with an
/// empty batch from that state returns the same root with an empty
/// transaction.
pub proof fn lemma_round_trip<H: Hasher>(
    main: Map<Seq<u8>, Seq<u8>>,
    children: Map<Seq<u8>, Map<Seq<u8>, Seq<u8>>>,
    mcv: Seq<(Seq<u8>, Option<Seq<u8>>)>,
    ccv: Seq<(Seq<u8>, Seq<(Seq<u8>, Option<Seq<u8>>)>)>,
    root: Seq<u8>,
    tx: (Map<Seq<u8>, Seq<u8>>, Map<Seq<u8>, Map<Seq<u8>, Seq<u8>>>, Seq<(Seq<u8>, Seq<u8>)>),
)
    requires
        computed::<H>(main, children, mcv, ccv, root, tx.0, tx.1, tx.2),
    ensures
        root == root_of::<H>(tx.0),
        computed::<H>(
            tx.0,
            tx.1,
            Seq::<(Seq<u8>, Option<Seq<u8>>)>::empty(),
            Seq::<(Seq<u8>, Seq<(Seq<u8>, Option<Seq<u8>>)>)>::empty(),
            root,
            tx.0,
            tx.1,
            Seq::<(Seq<u8>, Seq<u8>)>::empty(),
        ),
{
}

/// Child isolation: a batch that touches no entry of child `other` — and
/// no main entry at `other`'s reserved key — leaves both `other`'s
/// recorded root entry in the staged main map and `other`'s key/value set
/// unchanged, whatever it stages for other children.
pub proof fn lemma_child_isolation<H: Hasher>(
    mm: Map<Seq<u8>, Seq<u8>>,
    cm: Map<Seq<u8>, Map<Seq<u8>, Seq<u8>>>,
    cc: Seq<(Seq<u8>, Seq<(Seq<u8>, Option<Seq<u8>>)>)>,
    other: Seq<u8>,
)
    requires
        forall|i: int| 0 <= i < cc.len() ==> (#[trigger] cc[i]).0 != other,
    ensures
        stage_full::<H>(mm, cm, cc).0.contains_key(child_key(other)) == mm.contains_key(
            child_key(other),
        ),
        mm.contains_key(child_key(other)) ==> stage_full::<H>(mm, cm, cc).0[child_key(other)]
            == mm[child_key(other)],
        stage_full::<H>(mm, cm, cc).1.contains_key(other) == cm.contains_key(other),
        cm.contains_key(other) ==> stage_full::<H>(mm, cm, cc).1[other] == cm[other],
    decreases cc.len(),
{
    if cc.len() > 0 {
        assert(forall|i: int|
            0 <= i < cc.drop_last().len() ==> (#[trigger] cc.drop_last()[i]).0 != other);
        lemma_child_isolation::<H>(mm, cm, cc.drop_last(), other);
        assert(cc.last() == cc[cc.len() - 1]);
        assert(cc.last().0 != other);
        if child_key(cc.last().0) == child_key(other) {
            lemma_child_key_injective(cc.last().0, other);
        }
    }
}

/// Mutating one child updates exactly that child's state: staging a batch
/// for child `id` stores the staged child set's root under `id`'s
/// reserved main key and replaces `id`'s key/value set, touching nothing
/// else.  Together with `lemma_child_isolation`, this is how a child
/// mutation moves the main trie's content while every other child's
/// recorded root stays as it was.
pub proof fn lemma_child_update_records_new_root<H: Hasher>(
    mm: Map<Seq<u8>, Seq<u8>>,
    cm: Map<Seq<u8>, Map<Seq<u8>, Seq<u8>>>,
    id: Seq<u8>,
    ch: Seq<(Seq<u8>, Option<Seq<u8>>)>,
)
    ensures
        ({
            let base = if cm.contains_key(id) {
                cm[id]
            } else {
                Map::<Seq<u8>, Seq<u8>>::empty()
            };
            let nk = stage(base, ch);
            &&& stage_full::<H>(mm, cm, seq![(id, ch)]).0 == mm.insert(
                child_key(id),
                root_of::<H>(nk),
            )
            &&& stage_full::<H>(mm, cm, seq![(id, ch)]).1 == cm.insert(id, nk)
        }),
{
    let cc = seq![(id, ch)];
    assert(cc.drop_last() =~= Seq::<(Seq<u8>, Seq<(Seq<u8>, Option<Seq<u8>>)>)>::empty());
    assert(stage_full::<H>(mm, cm, cc.drop_last()).0 == mm);
    assert(cc.last() == (id, ch));
}

/// An accepted main-namespace batch cannot touch any child's recorded
/// root: every reserved key is rejected, and every child-root key is
/// reserved.
pub proof fn lemma_main_changes_leave_child_roots(
    mcv: Seq<(Seq<u8>, Option<Seq<u8>>)>,
    id: Seq<u8>,
)
    requires
        forall|i: int|
            0 <= i < mcv.len() ==> !crate::engine::is_reserved_key((#[trigger] mcv[i]).0),
    ensures
        forall|i: int| 0 <= i < mcv.len() ==> (#[trigger] mcv[i]).0 != child_key(id),
{
    crate::engine::lemma_child_key_reserved(id);
}

/// The staged effect a batch has on one key: the latest change for the key
/// if the batch holds one.
pub open spec fn find_change(c: Seq<(Seq<u8>, Option<Seq<u8>>)>, k: Seq<u8>) -> Option<
    Option<Seq<u8>>,
>
    decreases c.len(),
{
    if c.len() == 0 {
        None
    } else if c.last().0 == k {
        Some(c.last().1)
    } else {
        find_change(c.drop_last(), k)
    }
}

/// What `stage` leaves at each key, via `find_change`.
pub proof fn lemma_stage_find(
    m: Map<Seq<u8>, Seq<u8>>,
    c: Seq<(Seq<u8>, Option<Seq<u8>>)>,
    k: Seq<u8>,
)
    ensures
        match find_change(c, k) {
            None => stage(m, c).contains_key(k) == m.contains_key(k) && (m.contains_key(k)
                ==> stage(m, c)[k] == m[k]),
            Some(None) => !stage(m, c).contains_key(k),
            Some(Some(v)) => stage(m, c).contains_key(k) && stage(m, c)[k] == v,
        },
    decreases c.len(),
{
    if c.len() > 0 {
        lemma_stage_find(m, c.drop_last(), k);
    }
}

/// In a batch with pairwise-distinct keys, the change staged for a held
/// key is that key's one entry.
pub proof fn lemma_find_change_distinct(c: Seq<(Seq<u8>, Option<Seq<u8>>)>, i: int)
    requires
        forall|p: int, q: int| 0 <= p < q < c.len() ==> (#[trigger] c[p]).0 != (#[trigger] c[q]).0,
        0 <= i < c.len(),
    ensures
        find_change(c, c[i].0) == Some(c[i].1),
    decreases c.len(),
{
    if i < c.len() - 1 {
        assert(c.last().0 != c[i].0);
        assert(c.drop_last()[i] == c[i]);
        lemma_find_change_distinct(c.drop_last(), i);
    }
}

/// A key no entry holds stages no change.
pub proof fn lemma_find_change_none(c: Seq<(Seq<u8>, Option<Seq<u8>>)>, k: Seq<u8>)
    requires
        forall|i: int| 0 <= i < c.len() ==> (#[trigger] c[i]).0 != k,
    ensures
        find_change(c, k) == None::<Option<Seq<u8>>>,
    decreases c.len(),
{
    if c.len() > 0 {
        assert(forall|i: int|
            0 <= i < c.drop_last().len() ==> (#[trigger] c.drop_last()[i]).0 != k);
        lemma_find_change_none(c.drop_last(), k);
    }
}

/// Order-independence: two batches that are permutations of one another,
/// each with pairwise-distinct keys, stage the same map against any
/// starting map.
pub proof fn lemma_order_independence(
    m: Map<Seq<u8>, Seq<u8>>,
    c1: Seq<(Seq<u8>, Option<Seq<u8>>)>,
    c2: Seq<(Seq<u8>, Option<Seq<u8>>)>,
)
    requires
        forall|p: int, q: int|
            0 <= p < q < c1.len() ==> (#[trigger] c1[p]).0 != (#[trigger] c1[q]).0,
        forall|p: int, q: int|
            0 <= p < q < c2.len() ==> (#[trigger] c2[p]).0 != (#[trigger] c2[q]).0,
        c1.to_multiset() == c2.to_multiset(),
    ensures
        stage(m, c1) == stage(m, c2),
{
    c1.to_multiset_ensures();
    c2.to_multiset_ensures();
    assert forall|k: Seq<u8>| true implies #[trigger] find_change(c1, k) == find_change(
        c2,
        k,
    ) by {
        lemma_find_swap(c1, c2, k);
        lemma_find_swap(c2, c1, k);
    }
    assert(stage(m, c1) =~= stage(m, c2)) by {
        assert forall|k: Seq<u8>|
            #[trigger] stage(m, c1).contains_key(k) == stage(m, c2).contains_key(k) && (stage(
                m,
                c1,
            ).contains_key(k) ==> stage(m, c1)[k] == stage(m, c2)[k]) by {
            lemma_stage_find(m, c1, k);
            lemma_stage_find(m, c2, k);
            assert(find_change(c1, k) == find_change(c2, k));
        }
    }
}

/// Half of the permutation argument: a change `c1` stages is staged by any
/// permutation of `c1` with distinct keys.
proof fn lemma_find_swap(
    c1: Seq<(Seq<u8>, Option<Seq<u8>>)>,
    c2: Seq<(Seq<u8>, Option<Seq<u8>>)>,
    k: Seq<u8>,
)
    requires
        forall|p: int, q: int|
            0 <= p < q < c1.len() ==> (#[trigger] c1[p]).0 != (#[trigger] c1[q]).0,
        forall|p: int, q: int|
            0 <= p < q < c2.len() ==> (#[trigger] c2[p]).0 != (#[trigger] c2[q]).0,
        c1.to_multiset() == c2.to_multiset(),
    ensures
        find_change(c1, k) is Some ==> find_change(c2, k) == find_change(c1, k),
{
    c1.to_multiset_ensures();
    c2.to_multiset_ensures();
    if find_change(c1, k) is Some {
        let i = lemma_find_change_witness(c1, k);
        assert(c1.contains(c1[i]));
        assert(c1.to_multiset().count(c1[i]) > 0);
        assert(c2.to_multiset().count(c1[i]) > 0);
        assert(c2.contains(c1[i]));
        let j = choose|j: int| 0 <= j < c2.len() && c2[j] == c1[i];
        lemma_find_change_distinct(c2, j);
    }
}

/// A staged change comes from some entry of the batch.
proof fn lemma_find_change_witness(c: Seq<(Seq<u8>, Option<Seq<u8>>)>, k: Seq<u8>) -> (i: int)
    requires
        find_change(c, k) is Some,
    ensures
        0 <= i < c.len(),
        c[i].0 == k,
        find_change(c, k) == Some(c[i].1),
    decreases c.len(),
{
    if c.last().0 == k {
        c.len() - 1
    } else {
        let i = lemma_find_change_witness(c.drop_last(), k);
        assert(c.drop_last()[i] == c[i]);
        i
    }
}

} // verus!
