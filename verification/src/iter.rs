//! Traversal of a table: every stored pair once, bucket after bucket.
use crate::table::HashMap;
use vstd::prelude::*;
use vstd::std_specs::iter::IteratorSpecImpl;

verus! {

/// The pairs of `layout` from position `at` of bucket `bucket` on.
pub open spec fn rest<K, V>(layout: Seq<Seq<(K, V)>>, bucket: int, at: int) -> Seq<(K, V)> {
    if 0 <= bucket < layout.len() {
        let here = if 0 <= at <= layout[bucket].len() {
            layout[bucket].skip(at)
        } else {
            Seq::empty()
        };
        here + layout.skip(bucket + 1).flatten()
    } else {
        Seq::empty()
    }
}

/// A traversal of a table, at some point of its way.
///
/// It yields each stored pair once, bucket after bucket and each bucket in
/// the order in which it holds its pairs, and then nothing more. It cannot
/// be started again: a new traversal is a new value.
///
/// A traversal borrows the table and only reads it. While one is open the
/// table cannot be changed, so what a change in the middle of a traversal
/// would do is left open.
pub struct Iter<'a, K: 'a, V: 'a> {
    map: &'a HashMap<K, V>,
    bucket: usize,
    at: usize,
}

impl<'a, K, V> Iter<'a, K, V> {
    /// The pairs still to come, in the order in which they come.
    pub closed spec fn pending(&self) -> Seq<(K, V)> {
        rest(self.map.layout(), self.bucket as int, self.at as int)
    }
}

/// From a bucket's start, what is to come is that bucket and what follows it.
proof fn lemma_rest_start<K, V>(layout: Seq<Seq<(K, V)>>, bucket: int)
    requires
        0 <= bucket <= layout.len(),
    ensures
        rest(layout, bucket, 0) == layout.skip(bucket).flatten(),
{
    if bucket < layout.len() {
        let tail = layout.skip(bucket);
        assert(tail.first() == layout[bucket]);
        assert(tail.drop_first() =~= layout.skip(bucket + 1));
        assert(layout[bucket].skip(0) =~= layout[bucket]);
    } else {
        assert(layout.skip(bucket) =~= Seq::empty());
    }
}

impl<'a, K, V> Iterator for Iter<'a, K, V> {
    type Item = (&'a K, &'a V);

    /// The next pair of the traversal, or nothing when every pair has come.
    fn next(&mut self) -> (ret: Option<Self::Item>) {
        loop
            invariant
                self.map == old(self).map,
                self.pending() == old(self).pending(),
            decreases self.map.bucket_count() - self.bucket,
        {
            match self.map.bucket(self.bucket) {
                Some(bucket) => {
                    if self.at < bucket.len() {
                        let pair = &bucket[self.at];
                        proof {
                            assert(bucket@.skip(self.at as int).drop_first() =~= bucket@.skip(
                                self.at as int + 1,
                            ));
                        }
                        self.at += 1;
                        return Some((&pair.0, &pair.1));
                    } else {
                        proof {
                            lemma_rest_start(self.map.layout(), self.bucket as int + 1);
                            assert(self.at as int <= bucket@.len() ==> bucket@.skip(self.at as int)
                                =~= Seq::empty());
                        }
                        self.bucket += 1;
                        self.at = 0;
                    }
                },
                None => {
                    return None;
                },
            }
        }
    }
}

impl<'a, K, V> IteratorSpecImpl for Iter<'a, K, V> {
    open spec fn obeys_prophetic_iter_laws(&self) -> bool {
        true
    }

    open spec fn remaining(&self) -> Seq<Self::Item> {
        self.pending().map_values(|p: (K, V)| (&p.0, &p.1))
    }

    open spec fn will_return_none(&self) -> bool {
        true
    }

    open spec fn decrease(&self) -> Option<nat> {
        Some(self.pending().len())
    }

    open spec fn initial_value_relation(&self, init: &Self) -> bool {
        init.pending() == self.pending()
    }

    open spec fn peek(&self, index: int) -> Option<Self::Item> {
        if 0 <= index < self.pending().len() {
            Some((&self.pending()[index].0, &self.pending()[index].1))
        } else {
            None
        }
    }
}

impl<'a, K, V> IntoIterator for &'a HashMap<K, V> {
    type Item = (&'a K, &'a V);

    type IntoIter = Iter<'a, K, V>;

    /// A traversal of the table, at its start: every stored pair is to come.
    fn into_iter(self) -> (iter: Iter<'a, K, V>)
        ensures
            iter.pending() == self.entries(),
    {
        proof {
            lemma_rest_start(self.layout(), 0);
            assert(self.layout().skip(0) =~= self.layout());
        }
        Iter { map: self, bucket: 0, at: 0 }
    }
}

} // verus!
