//! The in-memory ordered key-value backend: named partitions of string
//! keys and byte values, with point lookup and an atomic batch primitive.
//!
//! A partition is an association list with pairwise distinct keys, viewed
//! as a mathematical map from key to value. A batch of puts applied in one
//! call is atomic by construction: either the whole call runs or none of
//! it does.

use vstd::prelude::*;

verus! {

/// The entries of a partition, as mathematical values.
pub open spec fn entries_view(s: Seq<(String, Vec<u8>)>) -> Seq<(Seq<char>, Seq<u8>)> {
    s.map_values(|p: (String, Vec<u8>)| (p.0@, p.1@))
}

/// Whether a key occurs among the entries.
pub open spec fn has_key(s: Seq<(Seq<char>, Seq<u8>)>, k: Seq<char>) -> bool {
    exists|i: int| 0 <= i < s.len() && #[trigger] s[i].0 == k
}

/// The position of a key among the entries.
pub open spec fn key_index(s: Seq<(Seq<char>, Seq<u8>)>, k: Seq<char>) -> int {
    choose|i: int| 0 <= i < s.len() && #[trigger] s[i].0 == k
}

/// The entries as a map from key to value.
pub open spec fn entries_map(s: Seq<(Seq<char>, Seq<u8>)>) -> Map<Seq<char>, Seq<u8>> {
    Map::new(|k: Seq<char>| has_key(s, k), |k: Seq<char>| s[key_index(s, k)].1)
}

/// Entries have pairwise distinct keys.
pub open spec fn keys_unique(s: Seq<(Seq<char>, Seq<u8>)>) -> bool {
    forall|i: int, j: int| 0 <= i < j < s.len() ==> #[trigger] s[i].0 != #[trigger] s[j].0
}

/// A position holding key `k` is the position the lookup uses, when the
/// keys are pairwise distinct.
pub proof fn lemma_key_index_unique(s: Seq<(Seq<char>, Seq<u8>)>, k: Seq<char>, w: int)
    requires
        keys_unique(s),
        0 <= w < s.len(),
        s[w].0 == k,
    ensures
        has_key(s, k),
        key_index(s, k) == w,
        entries_map(s).contains_key(k),
        entries_map(s)[k] == s[w].1,
{
    assert(has_key(s, k));
    let u = key_index(s, k);
    if u < w {
        assert(s[u].0 != s[w].0);
    }
    if w < u {
        assert(s[w].0 != s[u].0);
    }
}

/// One named partition of the backend.
#[derive(Debug)]
pub struct Partition {
    /// The entries, with pairwise distinct keys, in insertion order.
    pub entries: Vec<(String, Vec<u8>)>,
}

impl Partition {
    /// The partition's entries as mathematical values.
    pub open spec fn view_entries(&self) -> Seq<(Seq<char>, Seq<u8>)> {
        entries_view(self.entries@)
    }

    /// The partition as a map from key to value.
    pub open spec fn as_map(&self) -> Map<Seq<char>, Seq<u8>> {
        entries_map(self.view_entries())
    }

    /// The partition's keys are pairwise distinct.
    pub open spec fn wf(&self) -> bool {
        keys_unique(self.view_entries())
    }

    /// An empty partition.
    pub fn new() -> (r: Partition)
        ensures
            r.wf(),
            r.as_map() == Map::<Seq<char>, Seq<u8>>::empty(),
            r.view_entries() == Seq::<(Seq<char>, Seq<u8>)>::empty(),
    {
        let r = Partition { entries: Vec::new() };
        proof {
            assert(r.view_entries() =~= Seq::<(Seq<char>, Seq<u8>)>::empty());
            assert(r.as_map() =~= Map::<Seq<char>, Seq<u8>>::empty());
        }
        r
    }

    /// Point lookup: the value stored under the key, or nothing.
    pub fn get(&self, key: &str) -> (r: Option<&Vec<u8>>)
        requires
            self.wf(),
        ensures
            match r {
                Some(v) => self.as_map().contains_key(key@) && v@ == self.as_map()[key@],
                None => !self.as_map().contains_key(key@),
            },
    {
        let s = Ghost(self.view_entries());
        let n = self.entries.len();
        let mut i: usize = 0;
        while i < n
            invariant
                n == self.entries.len(),
                s@ == self.view_entries(),
                self.wf(),
                0 <= i <= n,
                forall|j: int| 0 <= j < i ==> #[trigger] s@[j].0 != key@,
            decreases n - i,
        {
            proof {
                assert(s@[i as int] == (self.entries@[i as int].0@, self.entries@[i as int].1@));
            }
            if crate::text::str_eq(self.entries[i].0.as_str(), key) {
                proof {
                    lemma_key_index_unique(s@, key@, i as int);
                }
                return Some(&self.entries[i].1);
            }
            i = i + 1;
        }
        proof {
            assert(!has_key(s@, key@));
        }
        None
    }

    /// Store a value under a key, overwriting a previous value of the same
    /// key.
    pub fn put(&mut self, key: String, value: Vec<u8>)
        requires
            old(self).wf(),
        ensures
            final(self).wf(),
            final(self).as_map() == old(self).as_map().insert(key@, value@),
    {
        let ghost s0 = self.view_entries();
        let n = self.entries.len();
        let mut i: usize = 0;
        while i < n
            invariant
                n == self.entries.len(),
                s0 == self.view_entries(),
                s0 == old(self).view_entries(),
                keys_unique(s0),
                0 <= i <= n,
                forall|j: int| 0 <= j < i ==> #[trigger] s0[j].0 != key@,
            decreases n - i,
        {
            proof {
                assert(s0[i as int] == (self.entries@[i as int].0@, self.entries@[i as int].1@));
            }
            if crate::text::str_eq(self.entries[i].0.as_str(), key.as_str()) {
                self.entries.set(i, (key, value));
                proof {
                    let s1 = self.view_entries();
                    assert(s1 =~= s0.update(i as int, (s0[i as int].0, value@)));
                    assert(keys_unique(s1));
                    assert forall|k: Seq<char>| true implies #[trigger] entries_map(s1).contains_key(
                        k,
                    ) == old(self).as_map().insert(key@, value@).contains_key(k) && (entries_map(
                        s1,
                    ).contains_key(k) ==> entries_map(s1)[k] == old(self).as_map().insert(
                        key@,
                        value@,
                    )[k]) by {
                        if k == key@ {
                            lemma_key_index_unique(s1, k, i as int);
                        } else {
                            if has_key(s0, k) {
                                let w = key_index(s0, k);
                                lemma_key_index_unique(s0, k, w);
                                assert(s1[w].0 == k);
                                lemma_key_index_unique(s1, k, w);
                            }
                            if has_key(s1, k) {
                                let w = key_index(s1, k);
                                assert(s0[w].0 == k);
                                lemma_key_index_unique(s0, k, w);
                            }
                        }
                    }
                    assert(final(self).as_map() =~= old(self).as_map().insert(key@, value@));
                }
                return ;
            }
            i = i + 1;
        }
        self.entries.push((key, value));
        proof {
            let s1 = self.view_entries();
            assert(s1 =~= s0.push((key@, value@)));
            assert(!has_key(s0, key@));
            assert(keys_unique(s1)) by {
                assert(forall|j: int| 0 <= j < s0.len() ==> #[trigger] s1[j] == s0[j]);
            }
            let last = s1.len() - 1;
            assert forall|k: Seq<char>| true implies #[trigger] entries_map(s1).contains_key(k)
                == old(self).as_map().insert(key@, value@).contains_key(k) && (entries_map(
                s1,
            ).contains_key(k) ==> entries_map(s1)[k] == old(self).as_map().insert(
                key@,
                value@,
            )[k]) by {
                if k == key@ {
                    lemma_key_index_unique(s1, k, last);
                } else {
                    if has_key(s0, k) {
                        let w = key_index(s0, k);
                        lemma_key_index_unique(s0, k, w);
                        assert(s1[w].0 == k);
                        lemma_key_index_unique(s1, k, w);
                    }
                    if has_key(s1, k) {
                        let w = key_index(s1, k);
                        assert(w != last);
                        assert(s0[w].0 == k);
                        lemma_key_index_unique(s0, k, w);
                    }
                }
            }
            assert(final(self).as_map() =~= old(self).as_map().insert(key@, value@));
        }
    }

    /// Delete the value stored under a key. Deleting an absent key changes
    /// nothing: deletion is idempotent.
    pub fn del(&mut self, key: &str)
        requires
            old(self).wf(),
        ensures
            final(self).wf(),
            final(self).as_map() == old(self).as_map().remove(key@),
    {
        let ghost s0 = self.view_entries();
        let n = self.entries.len();
        let mut i: usize = 0;
        while i < n
            invariant
                n == self.entries.len(),
                s0 == self.view_entries(),
                s0 == old(self).view_entries(),
                keys_unique(s0),
                0 <= i <= n,
                forall|j: int| 0 <= j < i ==> #[trigger] s0[j].0 != key@,
            decreases n - i,
        {
            proof {
                assert(s0[i as int] == (self.entries@[i as int].0@, self.entries@[i as int].1@));
            }
            if crate::text::str_eq(self.entries[i].0.as_str(), key) {
                self.entries.remove(i);
                proof {
                    let s1 = self.view_entries();
                    assert(s1 =~= s0.remove(i as int));
                    assert(s1.len() == s0.len() - 1);
                    assert(forall|j: int| 0 <= j < i ==> #[trigger] s1[j] == s0[j]);
                    assert(forall|j: int|
                        i <= j < s1.len() ==> #[trigger] s1[j] == s0[j + 1]);
                    assert(keys_unique(s1));
                    assert forall|k: Seq<char>| true implies #[trigger] entries_map(
                        s1,
                    ).contains_key(k) == old(self).as_map().remove(key@).contains_key(k) && (
                    entries_map(s1).contains_key(k) ==> entries_map(s1)[k] == old(
                        self,
                    ).as_map().remove(key@)[k]) by {
                        if k == key@ {
                            if has_key(s1, k) {
                                let w = key_index(s1, k);
                                if w < i {
                                    assert(s0[w].0 == k);
                                    assert(false);
                                } else {
                                    assert(s0[w + 1].0 == k);
                                    lemma_key_index_unique(s0, k, i as int);
                                    assert(false);
                                }
                            }
                        } else {
                            if has_key(s0, k) {
                                let w = key_index(s0, k);
                                lemma_key_index_unique(s0, k, w);
                                if w < i {
                                    lemma_key_index_unique(s1, k, w);
                                } else {
                                    assert(w != i);
                                    assert(s1[w - 1].0 == k);
                                    lemma_key_index_unique(s1, k, w - 1);
                                }
                            }
                            if has_key(s1, k) {
                                let w = key_index(s1, k);
                                if w < i {
                                    lemma_key_index_unique(s0, k, w);
                                } else {
                                    lemma_key_index_unique(s0, k, w + 1);
                                }
                            }
                        }
                    }
                    assert(final(self).as_map() =~= old(self).as_map().remove(key@));
                }
                return ;
            }
            i = i + 1;
        }
        proof {
            assert(!has_key(s0, key@));
            assert(final(self).as_map() =~= old(self).as_map().remove(key@));
        }
    }
}

/// The map after storing each of the given (key, value) pairs in order:
/// what one atomic batch of puts leaves behind.
pub open spec fn insert_all(
    m: Map<Seq<char>, Seq<u8>>,
    items: Seq<(Seq<char>, Seq<u8>)>,
) -> Map<Seq<char>, Seq<u8>>
    decreases items.len(),
{
    if items.len() == 0 {
        m
    } else {
        insert_all(m, items.drop_last()).insert(items.last().0, items.last().1)
    }
}

/// The map after deleting each of the given keys in order: what one atomic
/// batch of deletes leaves behind.
pub open spec fn remove_all(m: Map<Seq<char>, Seq<u8>>, keys: Seq<Seq<char>>) -> Map<
    Seq<char>,
    Seq<u8>,
>
    decreases keys.len(),
{
    if keys.len() == 0 {
        m
    } else {
        remove_all(m, keys.drop_last()).remove(keys.last())
    }
}

/// After a batch of puts, every key whose pair is not overridden by a
/// later pair of the batch holds exactly the value the batch gave it: the
/// whole batch is visible.
pub proof fn lemma_insert_all_visible(
    m: Map<Seq<char>, Seq<u8>>,
    items: Seq<(Seq<char>, Seq<u8>)>,
    i: int,
)
    requires
        0 <= i < items.len(),
        forall|j: int| i < j < items.len() ==> (#[trigger] items[j].0) != items[i].0,
    ensures
        insert_all(m, items).contains_key(items[i].0),
        insert_all(m, items)[items[i].0] == items[i].1,
    decreases items.len(),
{
    if i == items.len() - 1 {
    } else {
        lemma_insert_all_visible(m, items.drop_last(), i);
        assert(items.drop_last()[i] == items[i]);
        assert(items.last().0 != items[i].0);
    }
}

/// A batch of puts does not touch keys that are not in the batch.
pub proof fn lemma_insert_all_frame(
    m: Map<Seq<char>, Seq<u8>>,
    items: Seq<(Seq<char>, Seq<u8>)>,
    k: Seq<char>,
)
    requires
        forall|j: int| 0 <= j < items.len() ==> (#[trigger] items[j].0) != k,
    ensures
        insert_all(m, items).contains_key(k) == m.contains_key(k),
        m.contains_key(k) ==> insert_all(m, items)[k] == m[k],
    decreases items.len(),
{
    if items.len() > 0 {
        lemma_insert_all_frame(m, items.drop_last(), k);
    }
}

} // verus!
