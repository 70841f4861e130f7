//! The table: an array of buckets, each a sequence of pairs, and a count.
use crate::key::{slot, spec_hash, Key};
use crate::model::{
    content, full, grown, inserted, lemma_content_len, lemma_flatten_distinct, lemma_flatten_last,
    lemma_lookup, lemma_position, lemma_position_is, lemma_rehashed, lemma_rehashed_empty,
    lemma_rehashed_push, lemma_slot_range, lemma_table_put, lemma_table_take_out, lookup,
    position, put, readied, rehashed, removed, threshold, valid, INITIAL_NBUCKETS,
};
use std::collections::hash_map::DefaultHasher;
use std::hash::Hasher;
use vstd::prelude::*;

verus! {

/// A map from keys to values, kept in buckets by the keys' hashes.
pub struct HashMap<K, V> {
    buckets: Vec<Vec<(K, V)>>,
    items: usize,
}

/// The pairs that each of `buckets` holds.
spec fn layout_of<K, V>(buckets: Seq<Vec<(K, V)>>) -> Seq<Seq<(K, V)>> {
    buckets.map_values(|b: Vec<(K, V)>| b@)
}

impl<K, V> HashMap<K, V> {
    /// The buckets in order, each with its pairs in the order in which it
    /// holds them.
    pub closed spec fn layout(&self) -> Seq<Seq<(K, V)>> {
        layout_of(self.buckets@)
    }

    /// The stored pairs in the order of a traversal: bucket after bucket.
    pub open spec fn entries(&self) -> Seq<(K, V)> {
        self.layout().flatten()
    }

    /// The number of buckets.
    pub open spec fn bucket_count(&self) -> nat {
        self.layout().len()
    }

    /// The count that the table keeps of its pairs.
    pub closed spec fn count(&self) -> nat {
        self.items as nat
    }

    /// Bucket `b`, if there is one.
    pub(crate) fn bucket(&self, b: usize) -> (r: Option<&Vec<(K, V)>>)
        ensures
            self.bucket_count() <= usize::MAX,
            match r {
                Some(bucket) => b < self.bucket_count() && bucket@ == self.layout()[b as int],
                None => b >= self.bucket_count(),
            },
    {
        if b < self.buckets.len() {
            Some(&self.buckets[b])
        } else {
            None
        }
    }
}

impl<K: View, V> View for HashMap<K, V> {
    type V = Map<K::V, V>;

    /// The map that the table stands for: the view of each stored key, with
    /// the value stored for it.
    open spec fn view(&self) -> Map<K::V, V> {
        content(self.entries())
    }
}

/// Where the key stands in `bucket`.
fn find<K: Key, V>(bucket: &Vec<(K, V)>, key: &K) -> (at: Option<usize>)
    ensures
        match at {
            Some(i) => i < bucket.len() && position(bucket@, key@) == Some(i as int),
            None => position(bucket@, key@) is None,
        },
{
    let mut i: usize = 0;
    while i < bucket.len()
        invariant
            i <= bucket.len(),
            forall|j: int| 0 <= j < i ==> (#[trigger] bucket@[j]).0@ != key@,
        decreases bucket.len() - i,
    {
        if bucket[i].0.key_eq(key) {
            proof {
                lemma_position_is(bucket@, key@, i as int);
            }
            return Some(i);
        }
        i += 1;
    }
    proof {
        lemma_position(bucket@, key@);
    }
    None
}

/// Three quarters of `n`, rounded down.
fn threshold_of(n: usize) -> (t: usize)
    ensures
        t == threshold(n as nat),
{
    n / 4 * 3 + n % 4 * 3 / 4
}

/// The hash of the key.
fn hash_of<K: Key>(key: &K) -> (h: u64)
    ensures
        h == spec_hash::<K>(key@),
{
    let mut hasher = DefaultHasher::new();
    key.key_hash(&mut hasher);
    assert(hasher@ =~= K::hash_input(key@));
    hasher.finish()
}

impl<K: Key, V> HashMap<K, V> {
    /// The table's invariant: the count is the number of stored pairs, and
    /// the buckets make a table.
    pub open spec fn wf(&self) -> bool {
        &&& self.count() == self.entries().len()
        &&& valid(self.layout())
    }

    /// An empty table. It has no bucket until the first insertion.
    pub fn new() -> (table: Self)
        ensures
            table.wf(),
            table.layout() == Seq::<Seq<(K, V)>>::empty(),
            table@ == Map::<K::V, V>::empty(),
    {
        let table = HashMap { buckets: Vec::new(), items: 0 };
        proof {
            assert(table.layout() =~= Seq::<Seq<(K, V)>>::empty());
            assert(table.entries() =~= Seq::<(K, V)>::empty());
            assert(table@ =~= Map::<K::V, V>::empty()) by {
                assert forall|id: K::V| !table@.contains_key(id) by {
                    lemma_position(table.entries(), id);
                }
            }
        }
        table
    }

    /// The number of keys in the table.
    pub fn len(&self) -> (n: usize)
        requires
            self.wf(),
        ensures
            n == self@.len(),
            n == self.count(),
    {
        proof {
            lemma_flatten_distinct(self.layout(), self.bucket_count());
            lemma_content_len(self.entries());
        }
        self.items
    }

    /// Whether the table holds no key.
    pub fn is_empty(&self) -> (empty: bool)
        requires
            self.wf(),
        ensures
            empty == (self@.len() == 0),
            empty == (self.count() == 0),
    {
        proof {
            lemma_flatten_distinct(self.layout(), self.bucket_count());
            lemma_content_len(self.entries());
        }
        self.items == 0
    }

    /// The bucket that the key is addressed to.
    fn bucket_idx(&self, key: &K) -> (b: usize)
        requires
            self.bucket_count() > 0,
        ensures
            b == slot::<K>(key@, self.bucket_count()),
            b < self.bucket_count(),
    {
        proof {
            lemma_slot_range::<K>(key@, self.bucket_count());
        }
        (hash_of(key) % self.buckets.len() as u64) as usize
    }

    /// Removes the key and returns the value that it had.
    ///
    /// The last pair of the key's bucket takes the place of the removed one.
    /// The number of buckets stays, also where the table becomes empty.
    pub fn remove(&mut self, key: &K) -> (value: Option<V>)
        requires
            old(self).wf(),
        ensures
            final(self).wf(),
            final(self)@ == old(self)@.remove(key@),
            value == lookup(old(self)@, key@),
            final(self).layout() == removed(old(self).layout(), key@),
    {
        if self.buckets.is_empty() {
            proof {
                lemma_lookup(self.layout(), key@);
                assert(self@.remove(key@) =~= self@);
            }
            return None;
        }
        let bucket_idx = self.bucket_idx(key);
        proof {
            lemma_table_take_out(self.layout(), key@);
            lemma_position(self.layout()[bucket_idx as int], key@);
        }
        match find(&self.buckets[bucket_idx], key) {
            Some(i) => {
                self.items -= 1;
                let pair = self.buckets[bucket_idx].swap_remove(i);
                proof {
                    assert(self.layout() =~= removed(old(self).layout(), key@));
                }
                Some(pair.1)
            },
            None => {
                proof {
                    assert(self.layout() =~= removed(old(self).layout(), key@));
                    assert(self@.remove(key@) =~= self@);
                }
                None
            },
        }
    }

    /// The value of the key. The table stays as it is.
    pub fn get(&mut self, key: &K) -> (value: Option<&V>)
        requires
            old(self).wf(),
        ensures
            *final(self) == *old(self),
            match value {
                Some(v) => lookup(old(self)@, key@) == Some(*v),
                None => lookup(old(self)@, key@) is None,
            },
    {
        proof {
            lemma_lookup(self.layout(), key@);
        }
        if self.buckets.is_empty() {
            return None;
        }
        let bucket_idx = self.bucket_idx(key);
        match find(&self.buckets[bucket_idx], key) {
            Some(i) => Some(&self.buckets[bucket_idx][i].1),
            None => None,
        }
    }

    /// Gives the key the value, and returns the value that it had.
    ///
    /// A full table grows first, whether or not the key is new: its pairs are
    /// dealt out to twice the buckets. Then the key's bucket is searched: a
    /// pair with the key keeps its place and its key and takes the value,
    /// else the new pair goes to the end of the bucket.
    ///
    /// The grown number of buckets has to fit the machine's word.
    pub fn insert(&mut self, key: K, value: V) -> (prev: Option<V>)
        requires
            old(self).wf(),
            full(old(self).layout()) ==> grown(old(self).bucket_count()) <= usize::MAX,
        ensures
            final(self).wf(),
            final(self)@ == old(self)@.insert(key@, value),
            prev == lookup(old(self)@, key@),
            final(self).layout() == inserted(old(self).layout(), key, value),
    {
        if self.buckets.is_empty() || self.items > threshold_of(self.buckets.len()) {
            self.resize();
        }
        let ghost base = self.layout();
        let b_idx = self.bucket_idx(&key);
        proof {
            assert(base == readied(old(self).layout()));
            lemma_table_put(base, key, value);
            lemma_position(base[b_idx as int], key@);
        }
        match find(&self.buckets[b_idx], &key) {
            Some(i) => {
                let mut held = value;
                std::mem::swap(&mut self.buckets[b_idx][i].1, &mut held);
                proof {
                    assert(self.buckets@[b_idx as int]@ =~= put(base[b_idx as int], key, value));
                    assert(self.layout() =~= inserted(old(self).layout(), key, value));
                }
                Some(held)
            },
            None => {
                self.buckets[b_idx].push((key, value));
                self.items += 1;
                proof {
                    assert(self.buckets@[b_idx as int]@ =~= put(base[b_idx as int], key, value));
                    assert(self.layout() =~= inserted(old(self).layout(), key, value));
                }
                None
            },
        }
    }

    /// Grows the table: twice the buckets, or one where there was none, and
    /// every pair dealt out anew.
    fn resize(&mut self)
        requires
            old(self).wf(),
            grown(old(self).bucket_count()) <= usize::MAX,
        ensures
            final(self).layout() == rehashed(old(self).entries(), grown(old(self).bucket_count())),
            final(self).wf(),
            final(self)@ == old(self)@,
            final(self).count() == old(self).count(),
    {
        let target_size = match self.buckets.len() {
            0 => INITIAL_NBUCKETS,
            n => 2 * n,
        };
        let ghost all = self.entries();
        let ghost old_layout = self.layout();
        let ghost count = target_size as nat;

        let mut new_buckets: Vec<Vec<(K, V)>> = Vec::with_capacity(target_size);
        while new_buckets.len() < target_size
            invariant
                new_buckets.len() <= target_size,
                forall|t: int| 0 <= t < new_buckets.len() ==> (#[trigger] new_buckets@[t])@.len() == 0,
            decreases target_size - new_buckets.len(),
        {
            new_buckets.push(Vec::new());
        }

        let mut old_buckets: Vec<Vec<(K, V)>> = Vec::new();
        std::mem::swap(&mut self.buckets, &mut old_buckets);
        let ghost mut done: Seq<(K, V)> = Seq::empty();
        proof {
            lemma_rehashed_empty::<K, V>(count);
            assert forall|t: int| 0 <= t < count implies (#[trigger] new_buckets@[t])@
                == Seq::<(K, V)>::empty() by {
                assert(new_buckets@[t]@ =~= Seq::<(K, V)>::empty());
            }
            assert(layout_of(new_buckets@) =~= rehashed(done, count));
        }

        for bucket in it: old_buckets
            invariant
                count == target_size,
                count > 0,
                new_buckets.len() == count,
                layout_of(new_buckets@) == rehashed(done, count),
                done == old_layout.take(it.index() as int).flatten(),
                layout_of(it.seq()) == old_layout,
        {
            let ghost before = done;
            for pair in it2: bucket
                invariant
                    count == target_size,
                    count > 0,
                    new_buckets.len() == count,
                    layout_of(new_buckets@) == rehashed(done, count),
                    done == before + it2.seq().take(it2.index() as int),
            {
                let b_idx = (hash_of(&pair.0) % new_buckets.len() as u64) as usize;
                proof {
                    lemma_rehashed_push(done, pair, count);
                    done = done.push(pair);
                }
                new_buckets[b_idx].push(pair);
                proof {
                    assert(layout_of(new_buckets@) =~= rehashed(done, count));
                    assert(done =~= before + it2.seq().take(it2.index() as int + 1));
                }
            }
            proof {
                lemma_flatten_last(old_layout.take(it.index() as int + 1));
                assert(old_layout.take(it.index() as int + 1).drop_last() =~= old_layout.take(
                    it.index() as int,
                ));
            }
        }
        self.buckets = new_buckets;
        proof {
            assert(old_layout.take(old_layout.len() as int) =~= old_layout);
            lemma_flatten_distinct(old_layout, old(self).bucket_count());
            lemma_rehashed(all, count);
        }
    }
}

} // verus!
