//! Sorted key/value entry lists.
//!
//! A trie's key/value content is held as an entry list strictly sorted by
//! byte-lexicographic key order.  The list is interpreted as a `Map` by
//! `assoc_map`; the central fact is canonicity: two sorted lists with the
//! same map interpretation are the same list.  Every root computed by the
//! engine therefore depends only on the key/value *set*, never on the order
//! in which it was built.

use vstd::prelude::*;
use crate::bytes::{bytes_cmp, bytes_eq, clone_bytes, lemma_lex_asym, lemma_lex_irrefl, lemma_lex_neq,
    lemma_lex_total, lemma_lex_trans, lex_lt, ByteOrd};

verus! {

/// The pairwise view of an entry list.
pub open spec fn entries_view(s: Seq<(Vec<u8>, Vec<u8>)>) -> Seq<(Seq<u8>, Seq<u8>)> {
    s.map_values(|p: (Vec<u8>, Vec<u8>)| (p.0@, p.1@))
}

/// No key occurs twice.
pub open spec fn distinct_keys<V>(s: Seq<(Seq<u8>, V)>) -> bool {
    forall|i: int, j: int| 0 <= i < j < s.len() ==> (#[trigger] s[i]).0 != (#[trigger] s[j]).0
}

/// Keys are strictly increasing in byte-lexicographic order.
pub open spec fn entries_sorted<V>(s: Seq<(Seq<u8>, V)>) -> bool {
    forall|i: int, j: int| 0 <= i < j < s.len() ==> lex_lt((#[trigger] s[i]).0, (#[trigger] s[j]).0)
}

/// The map an entry list stands for; on a repeated key the later entry wins.
pub open spec fn assoc_map<V>(s: Seq<(Seq<u8>, V)>) -> Map<Seq<u8>, V>
    decreases s.len(),
{
    if s.len() == 0 {
        Map::empty()
    } else {
        assoc_map(s.drop_last()).insert(s.last().0, s.last().1)
    }
}

/// A sorted list has distinct keys.
pub proof fn lemma_sorted_distinct<V>(s: Seq<(Seq<u8>, V)>)
    requires
        entries_sorted(s),
    ensures
        distinct_keys(s),
{
    assert forall|i: int, j: int| 0 <= i < j < s.len() implies (#[trigger] s[i]).0 != (
    #[trigger] s[j]).0 by {
        lemma_lex_neq(s[i].0, s[j].0);
    }
}

/// What `assoc_map` holds, entry by entry, when keys are distinct.
pub proof fn lemma_assoc_map_distinct<V>(s: Seq<(Seq<u8>, V)>)
    requires
        distinct_keys(s),
    ensures
        forall|k: Seq<u8>|
            #[trigger] assoc_map(s).contains_key(k) ==> exists|i: int|
                0 <= i < s.len() && (#[trigger] s[i]).0 == k,
        forall|i: int|
            0 <= i < s.len() ==> assoc_map(s).contains_key((#[trigger] s[i]).0) && assoc_map(
                s,
            )[s[i].0] == s[i].1,
    decreases s.len(),
{
    if s.len() > 0 {
        assert(s.drop_last().len() == s.len() - 1);
        lemma_assoc_map_distinct(s.drop_last());
        assert forall|i: int|
            0 <= i < s.len() implies assoc_map(s).contains_key((#[trigger] s[i]).0) && assoc_map(
            s,
        )[s[i].0] == s[i].1 by {
            if i < s.len() - 1 {
                assert(s.drop_last()[i] == s[i]);
                assert(s[i].0 != s.last().0);
            }
        }
        assert forall|k: Seq<u8>| #[trigger] assoc_map(s).contains_key(k) implies exists|i: int|
            0 <= i < s.len() && (#[trigger] s[i]).0 == k by {
            if k == s.last().0 {
                assert(0 <= s.len() - 1 < s.len() && s[s.len() - 1].0 == k);
            } else {
                assert(assoc_map(s.drop_last()).contains_key(k));
                let i = choose|i: int|
                    0 <= i < s.drop_last().len() && (#[trigger] s.drop_last()[i]).0 == k;
                assert(s[i].0 == k);
            }
        }
    }
}

/// Dropping the first entry removes exactly its key from the map.
pub proof fn lemma_assoc_skip_first<V>(s: Seq<(Seq<u8>, V)>)
    requires
        distinct_keys(s),
        s.len() > 0,
    ensures
        assoc_map(s.skip(1)) == assoc_map(s).remove(s[0].0),
    decreases s.len(),
{
    if s.len() == 1 {
        assert(s.skip(1) =~= Seq::<(Seq<u8>, V)>::empty());
        assert(s.drop_last() =~= Seq::<(Seq<u8>, V)>::empty());
        assert(assoc_map(Seq::<(Seq<u8>, V)>::empty()) == Map::<Seq<u8>, V>::empty());
        assert(s.last() == s[0]);
        assert(assoc_map(s) =~= Map::empty().insert(s[0].0, s[0].1));
        assert(assoc_map(s.skip(1)) =~= assoc_map(s).remove(s[0].0));
    } else {
        let d = s.drop_last();
        assert(forall|i: int| 0 <= i < d.len() ==> #[trigger] d[i] == s[i]);
        lemma_assoc_skip_first(d);
        assert(s.skip(1).drop_last() =~= d.skip(1));
        assert(s.skip(1).last() == s.last());
        assert(s.skip(1).len() > 0);
        assert(assoc_map(s.skip(1)) == assoc_map(d.skip(1)).insert(s.last().0, s.last().1));
        assert(s.last().0 != s[0].0);
        assert(assoc_map(d.skip(1)).insert(s.last().0, s.last().1) =~= assoc_map(d).insert(
            s.last().0,
            s.last().1,
        ).remove(s[0].0));
    }
}

/// Canonicity: two sorted entry lists standing for the same map are equal.
pub proof fn lemma_sorted_canonical<V>(a: Seq<(Seq<u8>, V)>, b: Seq<(Seq<u8>, V)>)
    requires
        entries_sorted(a),
        entries_sorted(b),
        assoc_map(a) == assoc_map(b),
    ensures
        a == b,
    decreases a.len(),
{
    lemma_sorted_distinct(a);
    lemma_sorted_distinct(b);
    lemma_assoc_map_distinct(a);
    lemma_assoc_map_distinct(b);
    if a.len() == 0 {
        if b.len() > 0 {
            assert(assoc_map(b).contains_key(b[0].0));
        }
        assert(a =~= b);
    } else if b.len() == 0 {
        assert(assoc_map(a).contains_key(a[0].0));
        assert(a =~= b);
    } else {
        // The head key of each list is the least key of the shared map, so
        // the heads agree; the tails stand for the map without that key.
        let i = choose|i: int| 0 <= i < a.len() && (#[trigger] a[i]).0 == b[0].0;
        let j = choose|j: int| 0 <= j < b.len() && (#[trigger] b[j]).0 == a[0].0;
        assert(assoc_map(a).contains_key(b[0].0));
        assert(assoc_map(b).contains_key(a[0].0));
        if i > 0 {
            assert(lex_lt(a[0].0, a[i].0));
            if j > 0 {
                assert(lex_lt(b[0].0, b[j].0));
                lemma_lex_asym(a[0].0, b[0].0);
                assert(false);
            }
            assert(b[j].0 == a[0].0 && j == 0);
            lemma_lex_irrefl(a[0].0);
            assert(false);
        }
        assert(a[0].0 == b[0].0);
        assert(a[0].1 == assoc_map(a)[a[0].0]);
        assert(b[0].1 == assoc_map(b)[b[0].0]);
        assert(a[0] == b[0]);
        lemma_assoc_skip_first(a);
        lemma_assoc_skip_first(b);
        let a1 = a.skip(1);
        let b1 = b.skip(1);
        assert(entries_sorted(a1)) by {
            assert(forall|p: int| 0 <= p < a1.len() ==> #[trigger] a1[p] == a[p + 1]);
        }
        assert(entries_sorted(b1)) by {
            assert(forall|p: int| 0 <= p < b1.len() ==> #[trigger] b1[p] == b[p + 1]);
        }
        lemma_sorted_canonical(a1, b1);
        assert(a =~= b) by {
            assert(forall|p: int| 1 <= p < a.len() ==> #[trigger] a[p] == a1[p - 1]);
            assert(forall|p: int| 1 <= p < b.len() ==> #[trigger] b[p] == b1[p - 1]);
        }
    }
}

/// The sorted entry list standing for a map, where one exists.
pub open spec fn canon(m: Map<Seq<u8>, Seq<u8>>) -> Seq<(Seq<u8>, Seq<u8>)> {
    choose|s: Seq<(Seq<u8>, Seq<u8>)>| entries_sorted(s) && assoc_map(s) == m
}

/// A sorted list is the canonical list of its own map.
pub proof fn lemma_canon(s: Seq<(Seq<u8>, Seq<u8>)>)
    requires
        entries_sorted(s),
    ensures
        canon(assoc_map(s)) == s,
{
    assert(entries_sorted(s) && assoc_map(s) == assoc_map(s));
    let c = canon(assoc_map(s));
    assert(entries_sorted(c) && assoc_map(c) == assoc_map(s));
    lemma_sorted_canonical(c, s);
}

/// Replacing the value at an existing key updates the map at that key.
pub proof fn lemma_assoc_update<V>(s: Seq<(Seq<u8>, V)>, i: int, k: Seq<u8>, v: V)
    requires
        distinct_keys(s),
        0 <= i < s.len(),
        s[i].0 == k,
    ensures
        assoc_map(s.update(i, (k, v))) == assoc_map(s).insert(k, v),
{
    let s2 = s.update(i, (k, v));
    assert(distinct_keys(s2)) by {
        assert(forall|p: int| 0 <= p < s.len() ==> (#[trigger] s2[p]).0 == s[p].0);
    }
    lemma_assoc_map_distinct(s);
    lemma_assoc_map_distinct(s2);
    assert(assoc_map(s2) =~= assoc_map(s).insert(k, v)) by {
        assert forall|k2: Seq<u8>| #[trigger] assoc_map(s2).contains_key(k2) implies assoc_map(
            s,
        ).insert(k, v).contains_key(k2) by {
            let p = choose|p: int| 0 <= p < s2.len() && (#[trigger] s2[p]).0 == k2;
            assert(s[p].0 == k2);
        }
        assert forall|k2: Seq<u8>| #[trigger] assoc_map(s).insert(k, v).contains_key(
            k2,
        ) implies assoc_map(s2).contains_key(k2) && assoc_map(s2)[k2] == assoc_map(s).insert(
            k,
            v,
        )[k2] by {
            if k2 == k {
                assert(s2[i].0 == k && s2[i].1 == v);
            } else {
                assert(assoc_map(s).contains_key(k2));
                let p = choose|p: int| 0 <= p < s.len() && (#[trigger] s[p]).0 == k2;
                assert(p != i);
                assert(s2[p] == s[p]);
            }
        }
    }
}

/// Inserting an entry with a fresh key at any position inserts it in the map.
proof fn lemma_assoc_insert_at<V>(s: Seq<(Seq<u8>, V)>, i: int, k: Seq<u8>, v: V)
    requires
        distinct_keys(s),
        0 <= i <= s.len(),
        forall|j: int| 0 <= j < s.len() ==> (#[trigger] s[j]).0 != k,
    ensures
        assoc_map(s.insert(i, (k, v))) == assoc_map(s).insert(k, v),
{
    let s2 = s.insert(i, (k, v));
    assert(forall|p: int| 0 <= p < i ==> #[trigger] s2[p] == s[p]);
    assert(s2[i] == (k, v));
    assert(forall|p: int| i < p < s2.len() ==> #[trigger] s2[p] == s[p - 1]);
    assert(distinct_keys(s2)) by {
        assert forall|p: int, q: int| 0 <= p < q < s2.len() implies (#[trigger] s2[p]).0 != (
        #[trigger] s2[q]).0 by {
            if p == i {
                assert(s2[q].0 == s[q - 1].0);
            } else if q == i {
                assert(s2[p].0 == s[p].0);
            }
        }
    }
    lemma_assoc_map_distinct(s);
    lemma_assoc_map_distinct(s2);
    assert(assoc_map(s2) =~= assoc_map(s).insert(k, v)) by {
        assert forall|k2: Seq<u8>| #[trigger] assoc_map(s2).contains_key(k2) implies assoc_map(
            s,
        ).insert(k, v).contains_key(k2) by {
            let p = choose|p: int| 0 <= p < s2.len() && (#[trigger] s2[p]).0 == k2;
            if p != i {
                if p < i {
                    assert(s[p].0 == k2);
                } else {
                    assert(s[p - 1].0 == k2);
                }
            }
        }
        assert forall|k2: Seq<u8>| #[trigger] assoc_map(s).insert(k, v).contains_key(
            k2,
        ) implies assoc_map(s2).contains_key(k2) && assoc_map(s2)[k2] == assoc_map(s).insert(
            k,
            v,
        )[k2] by {
            if k2 == k {
                assert(s2[i].0 == k && s2[i].1 == v);
            } else {
                assert(assoc_map(s).contains_key(k2));
                let p = choose|p: int| 0 <= p < s.len() && (#[trigger] s[p]).0 == k2;
                if p < i {
                    assert(s2[p] == s[p]);
                } else {
                    assert(s2[p + 1] == s[p]);
                }
            }
        }
    }
}

/// Removing the entry that holds a key removes it from the map.
proof fn lemma_assoc_remove_at<V>(s: Seq<(Seq<u8>, V)>, i: int)
    requires
        distinct_keys(s),
        0 <= i < s.len(),
    ensures
        assoc_map(s.remove(i)) == assoc_map(s).remove(s[i].0),
{
    let k = s[i].0;
    let s2 = s.remove(i);
    assert(forall|p: int| 0 <= p < i ==> #[trigger] s2[p] == s[p]);
    assert(forall|p: int| i <= p < s2.len() ==> #[trigger] s2[p] == s[p + 1]);
    assert(distinct_keys(s2)) by {
        assert forall|p: int, q: int| 0 <= p < q < s2.len() implies (#[trigger] s2[p]).0 != (
        #[trigger] s2[q]).0 by {
            let p2: int = if p < i { p } else { p + 1 };
            let q2: int = if q < i { q } else { q + 1 };
            assert(s2[p] == s[p2] && s2[q] == s[q2]);
        }
    }
    lemma_assoc_map_distinct(s);
    lemma_assoc_map_distinct(s2);
    assert(assoc_map(s2) =~= assoc_map(s).remove(k)) by {
        assert forall|k2: Seq<u8>| #[trigger] assoc_map(s2).contains_key(k2) implies assoc_map(
            s,
        ).remove(k).contains_key(k2) && assoc_map(s2)[k2] == assoc_map(s).remove(k)[k2] by {
            let p = choose|p: int| 0 <= p < s2.len() && (#[trigger] s2[p]).0 == k2;
            let p2: int = if p < i { p } else { p + 1 };
            assert(s2[p] == s[p2]);
            assert(s[p2].0 == k2 && p2 != i);
        }
        assert forall|k2: Seq<u8>| #[trigger] assoc_map(s).remove(k).contains_key(
            k2,
        ) implies assoc_map(s2).contains_key(k2) by {
            let p = choose|p: int| 0 <= p < s.len() && (#[trigger] s[p]).0 == k2;
            assert(p != i);
            if p < i {
                assert(s2[p] == s[p]);
            } else {
                assert(s2[p - 1] == s[p]);
            }
        }
    }
}

/// A key/value set held as an entry list strictly sorted by key.
pub struct Kv {
    pub entries: Vec<(Vec<u8>, Vec<u8>)>,
}

impl View for Kv {
    type V = Map<Seq<u8>, Seq<u8>>;

    open spec fn view(&self) -> Map<Seq<u8>, Seq<u8>> {
        assoc_map(self.rep())
    }
}

impl Kv {
    /// The sorted pair sequence this set is stored as.
    pub open spec fn rep(&self) -> Seq<(Seq<u8>, Seq<u8>)> {
        entries_view(self.entries@)
    }

    /// Well-formed: the entry list is strictly sorted by key.
    pub open spec fn wf(&self) -> bool {
        entries_sorted(self.rep())
    }

    /// The canonical list of a well-formed set is its own entry list.
    pub proof fn lemma_rep_canon(&self)
        requires
            self.wf(),
        ensures
            canon(self@) == self.rep(),
    {
        lemma_canon(self.rep());
    }

    /// An empty set.
    pub fn new() -> (r: Kv)
        ensures
            r.wf(),
            r@ == Map::<Seq<u8>, Seq<u8>>::empty(),
            r.rep().len() == 0,
    {
        let r = Kv { entries: Vec::new() };
        proof {
            assert(r.rep() =~= Seq::<(Seq<u8>, Seq<u8>)>::empty());
        }
        r
    }

    /// A fresh copy with the same content.
    pub fn duplicate(&self) -> (r: Kv)
        requires
            self.wf(),
        ensures
            r.wf(),
            r@ == self@,
            r.rep() == self.rep(),
    {
        let mut entries: Vec<(Vec<u8>, Vec<u8>)> = Vec::new();
        let mut i: usize = 0;
        while i < self.entries.len()
            invariant
                0 <= i <= self.entries@.len(),
                entries_view(entries@) == self.rep().subrange(0, i as int),
            decreases self.entries@.len() - i,
        {
            let k = clone_bytes(&self.entries[i].0);
            let v = clone_bytes(&self.entries[i].1);
            let ghost pre = entries@;
            entries.push((k, v));
            proof {
                assert(entries_view(pre).len() == pre.len());
                assert(pre.len() == i as int);
                assert(entries@ == pre.push((k, v)));
                assert forall|j: int|
                    0 <= j < i + 1 implies entries_view(entries@)[j] == self.rep().subrange(
                    0,
                    i + 1 as int,
                )[j] by {
                    if j < i {
                        assert(entries@[j] == pre[j]);
                        assert(entries_view(pre)[j] == self.rep().subrange(0, i as int)[j]);
                    } else {
                        assert(entries@[j] == (k, v));
                    }
                }
                assert(entries_view(entries@) =~= self.rep().subrange(0, i + 1 as int));
            }
            i = i + 1;
        }
        let r = Kv { entries };
        proof {
            assert(r.rep() =~= self.rep());
        }
        r
    }

    /// Where `key` is or would be: the index of the first key not below
    /// `key`, and whether it holds `key` itself.
    fn find_slot(&self, key: &Vec<u8>) -> (r: (usize, bool))
        requires
            self.wf(),
        ensures
            r.0 <= self.entries@.len(),
            forall|j: int| 0 <= j < r.0 ==> lex_lt((#[trigger] self.rep()[j]).0, key@),
            r.1 ==> r.0 < self.entries@.len() && self.rep()[r.0 as int].0 == key@,
            !r.1 && r.0 < self.entries@.len() ==> lex_lt(key@, self.rep()[r.0 as int].0),
    {
        let mut i: usize = 0;
        while i < self.entries.len()
            invariant
                0 <= i <= self.entries@.len(),
                forall|j: int| 0 <= j < i ==> lex_lt((#[trigger] self.rep()[j]).0, key@),
                self.wf(),
            decreases self.entries@.len() - i,
        {
            match bytes_cmp(&self.entries[i].0, key) {
                ByteOrd::Lt => {
                    i = i + 1;
                },
                ByteOrd::Eq => {
                    return (i, true);
                },
                ByteOrd::Gt => {
                    return (i, false);
                },
            }
        }
        (i, false)
    }

    /// Look a key up.
    pub fn get(&self, key: &Vec<u8>) -> (r: Option<Vec<u8>>)
        requires
            self.wf(),
        ensures
            match r {
                Some(v) => self@.contains_key(key@) && v@ == self@[key@],
                None => !self@.contains_key(key@),
            },
    {
        proof {
            lemma_sorted_distinct(self.rep());
            lemma_assoc_map_distinct(self.rep());
        }
        let (i, found) = self.find_slot(key);
        if found {
            Some(clone_bytes(&self.entries[i].1))
        } else {
            proof {
                if self@.contains_key(key@) {
                    let j = choose|j: int|
                        0 <= j < self.rep().len() && (#[trigger] self.rep()[j]).0 == key@;
                    if j < i {
                        lemma_lex_irrefl(key@);
                    } else {
                        assert(i < self.rep().len() && lex_lt(key@, self.rep()[i as int].0));
                        if j == i {
                            lemma_lex_irrefl(key@);
                        } else {
                            lemma_lex_trans(key@, self.rep()[i as int].0, self.rep()[j].0);
                            lemma_lex_irrefl(key@);
                        }
                    }
                }
            }
            None
        }
    }

    /// Insert a pair, replacing any pair with the same key.
    pub fn set(&mut self, key: Vec<u8>, value: Vec<u8>)
        requires
            old(self).wf(),
        ensures
            final(self).wf(),
            final(self)@ == old(self)@.insert(key@, value@),
    {
        proof {
            lemma_sorted_distinct(self.rep());
        }
        let ghost old_rep = self.rep();
        let (i, found) = self.find_slot(&key);
        let ghost kview = key@;
        let ghost vview = value@;
        if found {
            proof {
                lemma_assoc_update(old_rep, i as int, kview, vview);
            }
            self.entries.set(i, (key, value));
            proof {
                assert(self.rep() =~= old_rep.update(i as int, (kview, vview)));
                assert(entries_sorted(self.rep())) by {
                    assert(forall|p: int|
                        0 <= p < old_rep.len() && p != i ==> (#[trigger] self.rep()[p]).0
                            == old_rep[p].0);
                    assert(self.rep()[i as int].0 == old_rep[i as int].0);
                }
            }
        } else {
            proof {
                assert forall|j: int| 0 <= j < old_rep.len() implies (#[trigger] old_rep[j]).0
                    != kview by {
                    if j < i {
                        lemma_lex_neq(old_rep[j].0, kview);
                    } else if j == i {
                        lemma_lex_neq(kview, old_rep[j].0);
                    } else {
                        lemma_lex_trans(kview, old_rep[i as int].0, old_rep[j].0);
                        lemma_lex_neq(kview, old_rep[j].0);
                    }
                }
                lemma_assoc_insert_at(old_rep, i as int, kview, vview);
            }
            self.entries.insert(i, (key, value));
            proof {
                assert(self.rep() =~= old_rep.insert(i as int, (kview, vview)));
                assert(entries_sorted(self.rep())) by {
                    assert(forall|p: int| 0 <= p < i ==> #[trigger] self.rep()[p] == old_rep[p]);
                    assert(self.rep()[i as int] == (kview, vview));
                    assert(forall|p: int|
                        i < p < self.rep().len() ==> #[trigger] self.rep()[p] == old_rep[p - 1]);
                    assert forall|p: int, q: int|
                        0 <= p < q < self.rep().len() implies lex_lt(
                        (#[trigger] self.rep()[p]).0,
                        (#[trigger] self.rep()[q]).0,
                    ) by {
                        if p == i {
                            if q - 1 > i {
                                lemma_lex_trans(kview, old_rep[i as int].0, old_rep[q - 1].0);
                            }
                        } else if q == i {
                            // p < i: old_rep[p].0 below key.
                        } else if p < i && q > i {
                            assert(lex_lt(old_rep[p].0, kview));
                            if q - 1 > i - 1 + 1 {
                            }
                            if p < q - 1 {
                                assert(lex_lt(old_rep[p].0, old_rep[q - 1].0));
                            } else {
                                assert(lex_lt(old_rep[p].0, kview) && lex_lt(
                                    kview,
                                    old_rep[q - 1].0,
                                ));
                                lemma_lex_trans(old_rep[p].0, kview, old_rep[q - 1].0);
                            }
                        }
                    }
                }
            }
        }
    }

    /// Remove a key, if present.
    pub fn remove(&mut self, key: &Vec<u8>)
        requires
            old(self).wf(),
        ensures
            final(self).wf(),
            final(self)@ == old(self)@.remove(key@),
    {
        proof {
            lemma_sorted_distinct(self.rep());
            lemma_assoc_map_distinct(self.rep());
        }
        let ghost old_rep = self.rep();
        let (i, found) = self.find_slot(key);
        if found {
            proof {
                lemma_assoc_remove_at(old_rep, i as int);
            }
            self.entries.remove(i);
            proof {
                assert(self.rep() =~= old_rep.remove(i as int));
                assert(entries_sorted(self.rep())) by {
                    assert(forall|p: int| 0 <= p < i ==> #[trigger] self.rep()[p] == old_rep[p]);
                    assert(forall|p: int|
                        i <= p < self.rep().len() ==> #[trigger] self.rep()[p] == old_rep[p + 1]);
                    assert forall|p: int, q: int|
                        0 <= p < q < self.rep().len() implies lex_lt(
                        (#[trigger] self.rep()[p]).0,
                        (#[trigger] self.rep()[q]).0,
                    ) by {
                        let p2: int = if p < i { p } else { p + 1 };
                        let q2: int = if q < i { q } else { q + 1 };
                        assert(self.rep()[p] == old_rep[p2] && self.rep()[q] == old_rep[q2]);
                    }
                }
            }
        } else {
            proof {
                if self@.contains_key(key@) {
                    let j = choose|j: int|
                        0 <= j < old_rep.len() && (#[trigger] old_rep[j]).0 == key@;
                    if j < i {
                        lemma_lex_irrefl(key@);
                    } else if j == i {
                        lemma_lex_irrefl(key@);
                    } else {
                        lemma_lex_trans(key@, old_rep[i as int].0, old_rep[j].0);
                        lemma_lex_irrefl(key@);
                    }
                }
                assert(self@ =~= self@.remove(key@));
            }
        }
    }

    /// Apply one staged change: an upsert or a deletion.
    pub fn apply_change(&mut self, key: Vec<u8>, change: Option<Vec<u8>>)
        requires
            old(self).wf(),
        ensures
            final(self).wf(),
            final(self)@ == match change {
                Some(v) => old(self)@.insert(key@, v@),
                None => old(self)@.remove(key@),
            },
    {
        match change {
            Some(v) => self.set(key, v),
            None => self.remove(&key),
        }
    }

    /// The number of entries.
    pub fn len(&self) -> (r: usize)
        ensures
            r == self.rep().len(),
    {
        self.entries.len()
    }
}

/// The key/value sets of the child tries, by child id.
pub struct ChildTable {
    pub entries: Vec<(Vec<u8>, Kv)>,
}

impl View for ChildTable {
    type V = Map<Seq<u8>, Map<Seq<u8>, Seq<u8>>>;

    open spec fn view(&self) -> Map<Seq<u8>, Map<Seq<u8>, Seq<u8>>> {
        assoc_map(self.rep())
    }
}

impl ChildTable {
    /// The id/content pair sequence this table is stored as.
    pub open spec fn rep(&self) -> Seq<(Seq<u8>, Map<Seq<u8>, Seq<u8>>)> {
        self.entries@.map_values(|p: (Vec<u8>, Kv)| (p.0@, p.1@))
    }

    /// Well-formed: ids are distinct and every child set is well-formed.
    pub open spec fn wf(&self) -> bool {
        &&& distinct_keys(self.rep())
        &&& forall|i: int| 0 <= i < self.entries@.len() ==> (#[trigger] self.entries@[i]).1.wf()
    }

    /// An empty table.
    pub fn new() -> (r: ChildTable)
        ensures
            r.wf(),
            r@ == Map::<Seq<u8>, Map<Seq<u8>, Seq<u8>>>::empty(),
            r.rep().len() == 0,
    {
        let r = ChildTable { entries: Vec::new() };
        proof {
            assert(r.rep() =~= Seq::<(Seq<u8>, Map<Seq<u8>, Seq<u8>>)>::empty());
        }
        r
    }

    /// A fresh copy with the same content.
    pub fn duplicate(&self) -> (r: ChildTable)
        requires
            self.wf(),
        ensures
            r.wf(),
            r@ == self@,
            r.rep() == self.rep(),
    {
        let mut entries: Vec<(Vec<u8>, Kv)> = Vec::new();
        let mut i: usize = 0;
        while i < self.entries.len()
            invariant
                0 <= i <= self.entries@.len(),
                entries@.len() == i,
                forall|j: int|
                    0 <= j < i ==> (#[trigger] entries@[j]).0@ == self.entries@[j].0@
                        && entries@[j].1@ == self.entries@[j].1@ && entries@[j].1.wf(),
                self.wf(),
            decreases self.entries@.len() - i,
        {
            let id = clone_bytes(&self.entries[i].0);
            let kv = self.entries[i].1.duplicate();
            entries.push((id, kv));
            i = i + 1;
        }
        let r = ChildTable { entries };
        proof {
            assert(r.rep() =~= self.rep());
        }
        r
    }

    /// The content of a child, or an empty set where the id is unknown.
    pub fn get_copy(&self, id: &Vec<u8>) -> (r: Kv)
        requires
            self.wf(),
        ensures
            r.wf(),
            r@ == if self@.contains_key(id@) {
                self@[id@]
            } else {
                Map::<Seq<u8>, Seq<u8>>::empty()
            },
    {
        proof {
            lemma_assoc_map_distinct(self.rep());
        }
        let mut i: usize = 0;
        while i < self.entries.len()
            invariant
                0 <= i <= self.entries@.len(),
                forall|j: int| 0 <= j < i ==> (#[trigger] self.rep()[j]).0 != id@,
                self.wf(),
            decreases self.entries@.len() - i,
        {
            if bytes_eq(&self.entries[i].0, id) {
                proof {
                    lemma_assoc_map_distinct(self.rep());
                    assert(self.rep()[i as int]
                        == (self.entries@[i as int].0@, self.entries@[i as int].1@));
                    assert(self@.contains_key(id@) && self@[id@] == self.rep()[i as int].1);
                }
                return self.entries[i].1.duplicate();
            }
            i = i + 1;
        }
        proof {
            lemma_assoc_map_distinct(self.rep());
            if self@.contains_key(id@) {
                let j = choose|j: int|
                    0 <= j < self.rep().len() && (#[trigger] self.rep()[j]).0 == id@;
                assert(false);
            }
        }
        Kv::new()
    }

    /// Insert or replace a child's content.
    pub fn upsert(&mut self, id: Vec<u8>, kv: Kv)
        requires
            old(self).wf(),
            kv.wf(),
        ensures
            final(self).wf(),
            final(self)@ == old(self)@.insert(id@, kv@),
    {
        let ghost old_rep = self.rep();
        let ghost idv = id@;
        let ghost kvv = kv@;
        proof {
            lemma_assoc_map_distinct(old_rep);
        }
        let (i, found) = self.find_id(&id);
        if found {
            proof {
                assert(old_rep[i as int].0 == idv);
                lemma_assoc_update(old_rep, i as int, idv, kvv);
            }
            self.entries.set(i, (id, kv));
            proof {
                assert forall|p: int|
                    0 <= p < self.rep().len() implies #[trigger] self.rep()[p] == old_rep.update(
                    i as int,
                    (idv, kvv),
                )[p] by {
                    if p != i {
                        assert(self.entries@[p] == old(self).entries@[p]);
                    }
                }
                assert(self.rep() =~= old_rep.update(i as int, (idv, kvv)));
                assert(distinct_keys(self.rep())) by {
                    assert(forall|p: int|
                        0 <= p < old_rep.len() ==> (#[trigger] self.rep()[p]).0 == old_rep[p].0);
                }
            }
        } else {
            proof {
                assert(forall|j: int| 0 <= j < old_rep.len() ==> (#[trigger] old_rep[j]).0 != idv);
            }
            self.entries.push((id, kv));
            proof {
                assert(self.rep() =~= old_rep.push((idv, kvv)));
                assert(self.rep().drop_last() =~= old_rep);
                assert(self@ == old(self)@.insert(idv, kvv));
                assert(distinct_keys(self.rep())) by {
                    assert(forall|p: int|
                        0 <= p < old_rep.len() ==> #[trigger] self.rep()[p] == old_rep[p]);
                    assert(self.rep()[old_rep.len() as int] == (idv, kvv));
                }
            }
        }
    }

    /// Where `id` sits in the table, if anywhere.
    fn find_id(&self, id: &Vec<u8>) -> (r: (usize, bool))
        ensures
            r.0 <= self.entries@.len(),
            forall|j: int| 0 <= j < r.0 ==> (#[trigger] self.rep()[j]).0 != id@,
            r.1 ==> r.0 < self.entries@.len() && self.rep()[r.0 as int].0 == id@,
            !r.1 ==> r.0 == self.entries@.len(),
    {
        let mut i: usize = 0;
        while i < self.entries.len()
            invariant
                0 <= i <= self.entries@.len(),
                forall|j: int| 0 <= j < i ==> (#[trigger] self.rep()[j]).0 != id@,
            decreases self.entries@.len() - i,
        {
            if bytes_eq(&self.entries[i].0, id) {
                return (i, true);
            }
            i = i + 1;
        }
        (i, false)
    }
}

} // verus!
