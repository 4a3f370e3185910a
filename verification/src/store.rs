//! The store component: the shard of key/value pairs a node currently
//! holds, as a duplicate-free association vector with a map view.

use vstd::prelude::*;

verus! {

/// The views of a sequence of key/value pairs.
pub open spec fn entry_views(s: Seq<(String, String)>) -> Seq<(Seq<char>, Seq<char>)> {
    Seq::new(s.len(), |i: int| (s[i].0@, s[i].1@))
}

/// An in-memory mapping from keys to values; insertion-ordered and
/// duplicate-free.
pub struct KvStore {
    pub(crate) entries: Vec<(String, String)>,
}

impl KvStore {
    /// The entries, in insertion order.
    pub open(crate) spec fn entry_seq(self) -> Seq<(Seq<char>, Seq<char>)> {
        entry_views(self.entries@)
    }

    /// The keys, in insertion order.
    pub open spec fn key_seq(self) -> Seq<Seq<char>> {
        Seq::new(self.entry_seq().len(), |i: int| self.entry_seq()[i].0)
    }

    pub open(crate) spec fn wf(self) -> bool {
        forall|i: int, j: int|
            0 <= i < j < self.entry_seq().len() ==> self.entry_seq()[i].0 != self.entry_seq()[j].0
    }

    pub(crate) open spec fn key_index(self, k: Seq<char>) -> int {
        choose|i: int| 0 <= i < self.entry_seq().len() && self.entry_seq()[i].0 == k
    }

    /// The store as a map from keys to values.
    pub open(crate) spec fn contents(self) -> Map<Seq<char>, Seq<char>> {
        Map::new(
            |k: Seq<char>| self.key_seq().contains(k),
            |k: Seq<char>| self.entry_seq()[self.key_index(k)].1,
        )
    }

    /// The entry at position `i` is in the map, with its value.
    pub proof fn lemma_entry_contents(self, i: int)
        requires
            self.wf(),
            0 <= i < self.entry_seq().len(),
        ensures
            self.contents().contains_key(self.entry_seq()[i].0),
            self.contents()[self.entry_seq()[i].0] == self.entry_seq()[i].1,
    {
        let k = self.entry_seq()[i].0;
        assert(self.key_seq()[i] == k);
        assert(self.key_seq().contains(k));
        let j = self.key_index(k);
        assert(0 <= j < self.entry_seq().len() && self.entry_seq()[j].0 == k);
        if i < j {
            assert(self.entry_seq()[i].0 != self.entry_seq()[j].0);
        } else if j < i {
            assert(self.entry_seq()[j].0 != self.entry_seq()[i].0);
        }
    }

    /// Every key of the map labels some entry.
    pub proof fn lemma_contents_entry(self, k: Seq<char>)
        requires
            self.wf(),
            self.contents().contains_key(k),
        ensures
            exists|i: int|
                0 <= i < self.entry_seq().len() && self.entry_seq()[i].0 == k
                    && self.entry_seq()[i].1 == self.contents()[k],
    {
        assert(self.key_seq().contains(k));
        let i = choose|i: int| 0 <= i < self.key_seq().len() && self.key_seq()[i] == k;
        self.lemma_entry_contents(i);
        assert(self.entry_seq()[i].0 == k && self.entry_seq()[i].1 == self.contents()[k]);
    }

    /// Entries carry pairwise distinct keys.
    pub proof fn lemma_keys_unique(self)
        requires
            self.wf(),
        ensures
            forall|i: int, j: int|
                0 <= i < j < self.entry_seq().len() ==> self.entry_seq()[i].0
                    != self.entry_seq()[j].0,
    {
    }

    /// The map has as many keys as the store has entries.
    pub proof fn lemma_dom_len(self)
        requires
            self.wf(),
        ensures
            self.contents().dom().len() == self.entry_seq().len(),
    {
        assert(self.key_seq().no_duplicates());
        self.key_seq().unique_seq_to_set();
        assert(self.contents().dom() =~= self.key_seq().to_set());
    }

    pub fn new() -> (s: KvStore)
        ensures
            s.wf(),
            s.contents() == Map::<Seq<char>, Seq<char>>::empty(),
            s.entry_seq().len() == 0,
    {
        let s = KvStore { entries: Vec::new() };
        proof {
            assert(s.entry_seq().len() == 0);
            assert(s.contents() =~= Map::<Seq<char>, Seq<char>>::empty());
        }
        s
    }

    /// How many keys the store holds.
    pub fn len(&self) -> (n: usize)
        ensures
            n == self.entry_seq().len(),
    {
        self.entries.len()
    }

    pub fn key_at(&self, i: usize) -> (k: &String)
        requires
            i < self.entry_seq().len(),
        ensures
            k@ == self.entry_seq()[i as int].0,
    {
        &self.entries[i].0
    }

    pub fn value_at(&self, i: usize) -> (v: &String)
        requires
            i < self.entry_seq().len(),
        ensures
            v@ == self.entry_seq()[i as int].1,
    {
        &self.entries[i].1
    }

    /// Looks a key up; `Some` exactly when present.
    pub fn get(&self, key: &String) -> (r: Option<&String>)
        requires
            self.wf(),
        ensures
            (r is Some) <==> self.contents().contains_key(key@),
            r matches Some(v) ==> self.contents()[key@] == v@,
    {
        let n = self.entries.len();
        let mut i: usize = 0;
        while i < n
            invariant
                self.wf(),
                i <= n,
                n == self.entry_seq().len(),
                forall|j: int| 0 <= j < i ==> self.entry_seq()[j].0 != key@,
            decreases n - i,
        {
            if self.entries[i].0 == *key {
                proof {
                    self.lemma_entry_contents(i as int);
                }
                return Some(&self.entries[i].1);
            }
            i += 1;
        }
        proof {
            if self.contents().contains_key(key@) {
                self.lemma_contents_entry(key@);
            }
        }
        None
    }

    /// Whether a key is present.
    pub fn contains_key(&self, key: &String) -> (r: bool)
        requires
            self.wf(),
        ensures
            r == self.contents().contains_key(key@),
    {
        match self.get(key) {
            Some(_) => true,
            None => false,
        }
    }

    /// Unconditionally maps `key` to `value`, keeping other entries as they
    /// are.
    pub fn insert(&mut self, key: String, value: String)
        requires
            old(self).wf(),
        ensures
            final(self).wf(),
            final(self).contents() == old(self).contents().insert(key@, value@),
            old(self).contents().contains_key(key@) ==> final(self).entry_seq().len() == old(self).entry_seq().len(),
            !old(self).contents().contains_key(key@) ==> final(self).entry_seq().len() == old(self).entry_seq().len() + 1,
    {
        let n = self.entries.len();
        let mut i: usize = 0;
        while i < n
            invariant
                old(self).wf(),
                *self == *old(self),
                i <= n,
                n == self.entry_seq().len(),
                forall|j: int| 0 <= j < i ==> self.entry_seq()[j].0 != key@,
            decreases n - i,
        {
            if self.entries[i].0 == *(&key) {
                let ghost before = self.entry_seq();
                proof {
                    self.lemma_entry_contents(i as int);
                }
                self.entries.remove(i);
                self.entries.insert(i, (key, value));
                proof {
                    let ghost k = before[i as int].0;
                    assert(self.entry_seq() =~= before.update(i as int, (k, value@)));
                    assert(final(self).wf()) by {
                        assert forall|p: int, q: int|
                            0 <= p < q < self.entry_seq().len() implies self.entry_seq()[p].0
                            != self.entry_seq()[q].0 by {
                            assert(self.entry_seq()[p].0 == before[p].0);
                            assert(self.entry_seq()[q].0 == before[q].0);
                        }
                    }
                    assert(self.contents() =~= old(self).contents().insert(k, value@)) by {
                        assert forall|k2: Seq<char>|
                            self.contents().contains_key(k2) == old(self).contents().insert(
                                k,
                                value@,
                            ).contains_key(k2) by {
                            assert(self.key_seq() =~= old(self).key_seq());
                        }
                        assert forall|k2: Seq<char>|
                            self.contents().contains_key(k2) implies self.contents()[k2] == old(self).contents().insert(k, value@)[k2] by {
                            self.lemma_contents_entry(k2);
                            let p = choose|p: int|
                                0 <= p < self.entry_seq().len() && self.entry_seq()[p].0 == k2
                                    && self.entry_seq()[p].1 == self.contents()[k2];
                            if p == i {
                                assert(k2 == k);
                            } else {
                                assert(self.entry_seq()[p] == before[p]);
                                assert(k2 != k) by {
                                    if p < i {
                                        assert(before[p].0 != before[i as int].0);
                                    } else {
                                        assert(before[i as int].0 != before[p].0);
                                    }
                                }
                                old(self).lemma_entry_contents(p);
                            }
                        }
                    }
                }
                return ;
            }
            i += 1;
        }
        proof {
            if self.contents().contains_key(key@) {
                self.lemma_contents_entry(key@);
            }
        }
        let ghost before = self.entry_seq();
        let ghost kv = (key@, value@);
        self.entries.push((key, value));
        proof {
            assert(self.entry_seq() =~= before.push(kv));
            assert(final(self).wf()) by {
                assert forall|p: int, q: int|
                    0 <= p < q < self.entry_seq().len() implies self.entry_seq()[p].0
                    != self.entry_seq()[q].0 by {
                    if q < before.len() {
                        assert(self.entry_seq()[p] == before[p]);
                        assert(self.entry_seq()[q] == before[q]);
                    } else {
                        assert(self.entry_seq()[p] == before[p]);
                        assert(self.entry_seq()[q] == kv);
                        assert(old(self).entry_seq()[p].0 != kv.0);
                    }
                }
            }
            assert(self.contents() =~= old(self).contents().insert(kv.0, kv.1)) by {
                assert forall|k2: Seq<char>|
                    self.contents().contains_key(k2) == old(self).contents().insert(
                        kv.0,
                        kv.1,
                    ).contains_key(k2) by {
                    if k2 == kv.0 {
                        assert(self.key_seq()[before.len() as int] == kv.0);
                        assert(self.key_seq().contains(kv.0));
                    } else {
                        if self.key_seq().contains(k2) {
                            let p = choose|p: int|
                                0 <= p < self.key_seq().len() && self.key_seq()[p] == k2;
                            assert(old(self).key_seq()[p] == k2);
                            assert(old(self).key_seq().contains(k2));
                        }
                        if old(self).key_seq().contains(k2) {
                            let p = choose|p: int|
                                0 <= p < old(self).key_seq().len() && old(self).key_seq()[p] == k2;
                            assert(self.key_seq()[p] == k2);
                            assert(self.key_seq().contains(k2));
                        }
                    }
                }
                assert forall|k2: Seq<char>|
                    self.contents().contains_key(k2) implies self.contents()[k2] == old(self).contents().insert(kv.0, kv.1)[k2] by {
                    self.lemma_contents_entry(k2);
                    let p = choose|p: int|
                        0 <= p < self.entry_seq().len() && self.entry_seq()[p].0 == k2
                            && self.entry_seq()[p].1 == self.contents()[k2];
                    if p == before.len() {
                        assert(k2 == kv.0);
                    } else {
                        assert(self.entry_seq()[p] == before[p]);
                        assert(k2 != kv.0);
                        old(self).lemma_entry_contents(p);
                    }
                }
            }
        }
    }

    /// Removes a key; `true` exactly when it was present.
    pub fn remove(&mut self, key: &String) -> (r: bool)
        requires
            old(self).wf(),
        ensures
            final(self).wf(),
            r == old(self).contents().contains_key(key@),
            final(self).contents() == old(self).contents().remove(key@),
            r ==> final(self).entry_seq().len() == old(self).entry_seq().len() - 1,
            !r ==> *final(self) == *old(self),
    {
        let n = self.entries.len();
        let mut i: usize = 0;
        while i < n
            invariant
                old(self).wf(),
                *self == *old(self),
                i <= n,
                n == self.entry_seq().len(),
                forall|j: int| 0 <= j < i ==> self.entry_seq()[j].0 != key@,
            decreases n - i,
        {
            if self.entries[i].0 == *key {
                let ghost before = self.entry_seq();
                proof {
                    self.lemma_entry_contents(i as int);
                }
                self.entries.remove(i);
                proof {
                    assert(self.entry_seq() =~= before.remove(i as int));
                    assert forall|p: int, q: int|
                        0 <= p < q < self.entry_seq().len() implies self.entry_seq()[p].0
                        != self.entry_seq()[q].0 by {
                        assert(self.entry_seq()[p] == if p < i {
                            before[p]
                        } else {
                            before[p + 1]
                        });
                        assert(self.entry_seq()[q] == if q < i {
                            before[q]
                        } else {
                            before[q + 1]
                        });
                    }
                    assert(self.contents() =~= old(self).contents().remove(key@)) by {
                        assert forall|k2: Seq<char>|
                            self.contents().contains_key(k2) == old(self).contents().remove(
                                key@,
                            ).contains_key(k2) by {
                            if self.key_seq().contains(k2) {
                                let p = choose|p: int|
                                    0 <= p < self.key_seq().len() && self.key_seq()[p] == k2;
                                if p < i {
                                    assert(old(self).key_seq()[p] == k2);
                                } else {
                                    assert(old(self).key_seq()[p + 1] == k2);
                                }
                                assert(old(self).key_seq().contains(k2));
                                if k2 == key@ {
                                    if p < i {
                                        assert(before[p].0 != before[i as int].0);
                                    } else {
                                        assert(before[i as int].0 != before[p + 1].0);
                                    }
                                    assert(false);
                                }
                            }
                            if old(self).key_seq().contains(k2) && k2 != key@ {
                                let p = choose|p: int|
                                    0 <= p < old(self).key_seq().len() && old(self).key_seq()[p]
                                        == k2;
                                if p < i {
                                    assert(self.key_seq()[p] == k2);
                                } else if p > i {
                                    assert(self.key_seq()[p - 1] == k2);
                                } else {
                                    assert(before[i as int].0 == key@);
                                }
                                assert(self.key_seq().contains(k2));
                            }
                        }
                        assert forall|k2: Seq<char>|
                            self.contents().contains_key(k2) implies self.contents()[k2] == old(self).contents().remove(key@)[k2] by {
                            self.lemma_contents_entry(k2);
                            let p = choose|p: int|
                                0 <= p < self.entry_seq().len() && self.entry_seq()[p].0 == k2
                                    && self.entry_seq()[p].1 == self.contents()[k2];
                            if p < i {
                                assert(self.entry_seq()[p] == before[p]);
                                old(self).lemma_entry_contents(p);
                            } else {
                                assert(self.entry_seq()[p] == before[p + 1]);
                                old(self).lemma_entry_contents(p + 1);
                            }
                        }
                    }
                }
                return true;
            }
            i += 1;
        }
        proof {
            if self.contents().contains_key(key@) {
                self.lemma_contents_entry(key@);
            }
            assert(self.contents() =~= old(self).contents().remove(key@));
        }
        false
    }
}

} // verus!
