use phala_trie_storage::backend::{Backend, MemoryBackend, MemoryKvStore, PersistentBackend};
use phala_trie_storage::codec::encode;
use phala_trie_storage::engine::{make_child_key, StorageError, Transaction, TrieStorage};
use phala_trie_storage::hasher::{Fnv1aHasher, Hasher};

type MemTrie = TrieStorage<Fnv1aHasher, MemoryBackend>;
type KvdbTrie = TrieStorage<Fnv1aHasher, PersistentBackend<MemoryKvStore>>;

fn b(s: &str) -> Vec<u8> {
    s.as_bytes().to_vec()
}

fn mem_trie() -> MemTrie {
    TrieStorage::with_backend(Fnv1aHasher, MemoryBackend::new())
}

fn kvdb_trie() -> KvdbTrie {
    TrieStorage::with_backend(Fnv1aHasher, PersistentBackend::with_store(MemoryKvStore::new()))
}

fn genesis_pairs() -> Vec<(Vec<u8>, Vec<u8>)> {
    vec![
        (b("version"), b("1")),
        (b("balance:bob"), b("50")),
        (b("balance:alice"), b("100")),
    ]
}

// One batch per block: main changes, then per-child changes.
fn batches() -> Vec<(Vec<(Vec<u8>, Option<Vec<u8>>)>, Vec<(Vec<u8>, Vec<(Vec<u8>, Option<Vec<u8>>)>)>)> {
    vec![
        (
            vec![(b("balance:alice"), Some(b("70"))), (b("balance:carol"), Some(b("30")))],
            vec![],
        ),
        (
            vec![(b("version"), None)],
            vec![(b("child-a"), vec![(b("k1"), Some(b("v1")))])],
        ),
    ]
}

const R0: [u8; 8] = [69, 82, 118, 46, 209, 198, 128, 244];
const R1: [u8; 8] = [96, 43, 16, 174, 244, 144, 28, 54];
const R2: [u8; 8] = [163, 200, 241, 107, 142, 9, 89, 49];
const EMPTY_ROOT: [u8; 8] = [197, 57, 26, 40, 50, 248, 199, 168];
const CHILD_A_ROOT: [u8; 8] = [185, 199, 45, 183, 55, 66, 176, 235];

#[test]
fn test_genesis_root() {
    let mut trie = mem_trie();
    assert_eq!(trie.root(), EMPTY_ROOT.to_vec());
    trie.load(&genesis_pairs());
    assert_eq!(trie.root(), R0.to_vec());
}

#[test]
fn test_apply_main_changes() {
    let mut trie = mem_trie();
    trie.load(&genesis_pairs());
    let roots = [R1.to_vec(), R2.to_vec()];
    for (number, (main, children)) in batches().into_iter().enumerate() {
        let (root, trans) = trie.calc_root_if_changes(&main, &children).unwrap();
        trie.apply_changes(root, trans);
        assert_eq!(trie.root(), roots[number]);
    }
}

#[test]
fn test_apply_main_changes_on_pkvdb() {
    let mut trie = kvdb_trie();
    trie.load(&genesis_pairs());
    let roots = [R1.to_vec(), R2.to_vec()];
    for (number, (main, children)) in batches().into_iter().enumerate() {
        let (root, trans) = trie.calc_root_if_changes(&main, &children).unwrap();
        trie.apply_changes(root, trans);
        assert_eq!(trie.root(), roots[number]);
    }
}

#[test]
fn determinism_load_vs_incremental() {
    // Loading a set and reaching the same set through compute + apply
    // against an empty trie give identical roots.
    let mut loaded = mem_trie();
    loaded.load(&genesis_pairs());

    let mut built = mem_trie();
    let as_changes: Vec<(Vec<u8>, Option<Vec<u8>>)> = genesis_pairs()
        .into_iter()
        .map(|(k, v)| (k, Some(v)))
        .collect();
    let (root, trans) = built.calc_root_if_changes(&as_changes, &vec![]).unwrap();
    built.apply_changes(root, trans);

    assert_eq!(loaded.root(), built.root());
}

#[test]
fn purity_compute_twice() {
    let mut trie = mem_trie();
    trie.load(&genesis_pairs());
    let before = trie.root();
    let (main, children) = batches().remove(0);
    let (root_a, trans_a) = trie.calc_root_if_changes(&main, &children).unwrap();
    let (root_b, trans_b) = trie.calc_root_if_changes(&main, &children).unwrap();
    assert_eq!(root_a, root_b);
    assert_eq!(trans_a.writes, trans_b.writes);
    assert_eq!(trans_a.main.entries, trans_b.main.entries);
    // Computing mutated nothing.
    assert_eq!(trie.root(), before);
}

#[test]
fn round_trip_commit() {
    let mut trie = mem_trie();
    trie.load(&genesis_pairs());
    let (main, children) = batches().remove(0);
    let (root, trans) = trie.calc_root_if_changes(&main, &children).unwrap();
    trie.apply_changes(root.clone(), trans);
    assert_eq!(trie.root(), root);
    // An empty batch recomputes the same root with an empty transaction.
    let (root2, trans2) = trie.calc_root_if_changes(&vec![], &vec![]).unwrap();
    assert_eq!(root2, root);
    assert!(trans2.writes.is_empty());
}

#[test]
fn child_isolation() {
    let mut trie = mem_trie();
    trie.load(&genesis_pairs());
    // Create two children.
    let both = vec![
        (b("child-a"), vec![(b("k1"), Some(b("v1")))]),
        (b("child-b"), vec![(b("k1"), Some(b("b1")))]),
    ];
    let (root, trans) = trie.calc_root_if_changes(&vec![], &both).unwrap();
    trie.apply_changes(root, trans);
    let root_before = trie.root();
    let recorded_b_before = trie.get(&make_child_key(&b("child-b"))).unwrap();

    // Mutate child A only.
    let only_a = vec![(b("child-a"), vec![(b("k2"), Some(b("v2")))])];
    let (root, trans) = trie.calc_root_if_changes(&vec![], &only_a).unwrap();
    trie.apply_changes(root, trans);

    // The main root moved, the recorded root of child B did not.
    assert_ne!(trie.root(), root_before);
    assert_eq!(trie.get(&make_child_key(&b("child-b"))).unwrap(), recorded_b_before);
    assert_ne!(trie.get(&make_child_key(&b("child-a"))).unwrap(), recorded_b_before);
}

#[test]
fn child_root_recorded_under_reserved_key() {
    let mut trie = mem_trie();
    trie.load(&genesis_pairs());
    let (main, children) = batches().remove(1);
    let (root, trans) = trie.calc_root_if_changes(&main, &children).unwrap();
    trie.apply_changes(root, trans);
    assert_eq!(
        trie.get(&make_child_key(&b("child-a"))).unwrap(),
        CHILD_A_ROOT.to_vec()
    );
}

#[test]
fn order_independence() {
    // Permuting independent entries of one batch leaves the root unchanged.
    let mut trie1 = mem_trie();
    trie1.load(&genesis_pairs());
    let mut trie2 = mem_trie();
    trie2.load(&genesis_pairs());

    let batch1 = vec![
        (b("x"), Some(b("1"))),
        (b("y"), Some(b("2"))),
        (b("version"), None),
    ];
    let batch2 = vec![
        (b("version"), None),
        (b("y"), Some(b("2"))),
        (b("x"), Some(b("1"))),
    ];
    let (root1, trans1) = trie1.calc_root_if_changes(&batch1, &vec![]).unwrap();
    trie1.apply_changes(root1, trans1);
    let (root2, trans2) = trie2.calc_root_if_changes(&batch2, &vec![]).unwrap();
    trie2.apply_changes(root2, trans2);
    assert_eq!(trie1.root(), trie2.root());
}

#[test]
fn backend_equivalence() {
    // The in-memory and the persistent backend produce the same root at
    // every step of the same replay.
    let mut mem = mem_trie();
    let mut kvdb = kvdb_trie();
    mem.load(&genesis_pairs());
    kvdb.load(&genesis_pairs());
    assert_eq!(mem.root(), kvdb.root());
    for (main, children) in batches() {
        let (root_m, trans_m) = mem.calc_root_if_changes(&main, &children).unwrap();
        mem.apply_changes(root_m, trans_m);
        let (root_k, trans_k) = kvdb.calc_root_if_changes(&main, &children).unwrap();
        kvdb.apply_changes(root_k, trans_k);
        assert_eq!(mem.root(), kvdb.root());
    }
}

#[test]
fn reserved_key_rejected() {
    let mut trie = mem_trie();
    trie.load(&genesis_pairs());
    let bad = vec![(b(":cchild-a"), Some(b("x")))];
    let before = trie.root();
    match trie.calc_root_if_changes(&bad, &vec![]) {
        Err(StorageError::ReservedKey) => {}
        Ok(_) => panic!("a reserved main key must be rejected"),
    }
    assert_eq!(trie.root(), before);
}

#[test]
fn duplicate_key_last_writer_wins() {
    // A batch may repeat a key; the later entry wins.
    let mut dup = mem_trie();
    dup.load(&genesis_pairs());
    let batch = vec![
        (b("slot"), Some(b("first"))),
        (b("slot"), Some(b("second"))),
    ];
    let (root, trans) = dup.calc_root_if_changes(&batch, &vec![]).unwrap();
    dup.apply_changes(root, trans);
    assert_eq!(dup.get(&b("slot")).unwrap(), b("second"));

    let mut single = mem_trie();
    single.load(&genesis_pairs());
    let batch = vec![(b("slot"), Some(b("second")))];
    let (root, trans) = single.calc_root_if_changes(&batch, &vec![]).unwrap();
    single.apply_changes(root, trans);
    assert_eq!(dup.root(), single.root());
}

#[test]
fn compute_writes_land_in_backend() {
    let mut trie = mem_trie();
    trie.load(&genesis_pairs());
    let (main, children) = batches().remove(1);
    let (root, trans) = trie.calc_root_if_changes(&main, &children).unwrap();
    let writes: Vec<(Vec<u8>, Vec<u8>)> = trans
        .writes
        .iter()
        .map(|(d, n)| (d.clone(), n.clone()))
        .collect();
    // One node for the new main trie, one per recomputed child.
    assert_eq!(writes.len(), 2);
    assert_eq!(writes[0].0, root);
    trie.apply_changes(root, trans);
    for (digest, node) in writes {
        assert_eq!(trie.backend.get(&digest).unwrap(), node);
    }
}

#[test]
fn hasher_digest_exact() {
    let h = Fnv1aHasher;
    assert_eq!(h.hash(&b("abc")), vec![75, 87, 65, 5, 25, 162, 31, 231]);
}

#[test]
fn encode_exact() {
    let entries = vec![(b("k1"), b("v1"))];
    assert_eq!(
        encode(&entries),
        vec![
            1, 0, 0, 0, 0, 0, 0, 0, // one entry
            2, 0, 0, 0, 0, 0, 0, 0, 107, 49, // "k1"
            2, 0, 0, 0, 0, 0, 0, 0, 118, 49, // "v1"
        ]
    );
}

#[test]
fn empty_load_gives_empty_root() {
    let mut trie = mem_trie();
    trie.load(&vec![]);
    assert_eq!(trie.root(), EMPTY_ROOT.to_vec());
}

#[test]
fn delete_of_absent_key_is_harmless() {
    let mut trie = mem_trie();
    trie.load(&genesis_pairs());
    let before = trie.root();
    let (root, trans) = trie
        .calc_root_if_changes(&vec![(b("no-such-key"), None)], &vec![])
        .unwrap();
    trie.apply_changes(root, trans);
    assert_eq!(trie.root(), before);
}

#[test]
fn repeated_child_id_applies_in_sequence_order() {
    // Two batches for one child inside a single change-set apply one after
    // the other, the same as one combined batch.
    let mut split = mem_trie();
    split.load(&genesis_pairs());
    let twice = vec![
        (b("child-a"), vec![(b("k1"), Some(b("v1")))]),
        (b("child-a"), vec![(b("k2"), Some(b("v2")))]),
    ];
    let (root, trans) = split.calc_root_if_changes(&vec![], &twice).unwrap();
    split.apply_changes(root, trans);

    let mut joined = mem_trie();
    joined.load(&genesis_pairs());
    let once = vec![
        (b("child-a"), vec![(b("k1"), Some(b("v1"))), (b("k2"), Some(b("v2")))]),
    ];
    let (root, trans) = joined.calc_root_if_changes(&vec![], &once).unwrap();
    joined.apply_changes(root, trans);

    assert_eq!(split.root(), joined.root());
}

#[test]
fn child_updates_accumulate_across_batches() {
    let mut trie = mem_trie();
    trie.load(&genesis_pairs());
    let first = vec![(b("child-a"), vec![(b("k1"), Some(b("v1")))])];
    let (root, trans) = trie.calc_root_if_changes(&vec![], &first).unwrap();
    trie.apply_changes(root, trans);
    let second = vec![(b("child-a"), vec![(b("k2"), Some(b("v2")))])];
    let (root, trans) = trie.calc_root_if_changes(&vec![], &second).unwrap();
    trie.apply_changes(root, trans);

    let mut joined = mem_trie();
    joined.load(&genesis_pairs());
    let once = vec![
        (b("child-a"), vec![(b("k1"), Some(b("v1"))), (b("k2"), Some(b("v2")))]),
    ];
    let (root, trans) = joined.calc_root_if_changes(&vec![], &once).unwrap();
    joined.apply_changes(root, trans);

    assert_eq!(trie.root(), joined.root());
}

#[test]
fn transaction_is_inspectable_value() {
    // A transaction can be examined and dropped without any side effect.
    let mut trie = mem_trie();
    trie.load(&genesis_pairs());
    let before = trie.root();
    let (_root, trans): (Vec<u8>, Transaction) = trie
        .calc_root_if_changes(&vec![(b("x"), Some(b("1")))], &vec![])
        .unwrap();
    assert_eq!(trans.writes.len(), 1);
    drop(trans);
    assert_eq!(trie.root(), before);
}
