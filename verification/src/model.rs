//! The mathematical model of a table: buckets of pairs, and the map that they
//! stand for.
use crate::key::{slot, spec_hash, Key};
use vstd::prelude::*;
use vstd::seq_lib::lemma_no_dup_in_concat;

verus! {

/// The views of the keys of `pairs`, in order.
pub open spec fn ids<K: View, V>(pairs: Seq<(K, V)>) -> Seq<K::V> {
    pairs.map_values(|p: (K, V)| p.0@)
}

/// Where the key with view `id` stands in `pairs`: the first position that
/// holds it.
pub open spec fn position<K: View, V>(pairs: Seq<(K, V)>, id: K::V) -> Option<int> {
    ids(pairs).index_of_first(id)
}

/// The value that `pairs` holds for the key with view `id`.
pub open spec fn found<K: View, V>(pairs: Seq<(K, V)>, id: K::V) -> Option<V> {
    match position(pairs, id) {
        Some(i) => Some(pairs[i].1),
        None => None,
    }
}

/// The value of `m` at `id`, if it has one.
pub open spec fn lookup<A, V>(m: Map<A, V>, id: A) -> Option<V> {
    if m.contains_key(id) {
        Some(m[id])
    } else {
        None
    }
}

/// The map that `pairs` stands for: each key that occurs, with the value at
/// its position.
pub open spec fn content<K: View, V>(pairs: Seq<(K, V)>) -> Map<K::V, V> {
    Map::new(|id: K::V| found(pairs, id) is Some, |id: K::V| found(pairs, id)->0)
}

/// No key occurs twice in `pairs`.
pub open spec fn distinct<K: View, V>(pairs: Seq<(K, V)>) -> bool {
    ids(pairs).no_duplicates()
}

/// Each pair of `layout` stands in the bucket that its key is addressed to
/// among `n` buckets.
pub open spec fn placed<K: Key, V>(layout: Seq<Seq<(K, V)>>, n: nat) -> bool {
    forall|b: int, i: int|
        0 <= b < layout.len() && 0 <= i < layout[b].len() ==> slot::<K>(
            (#[trigger] layout[b][i]).0@,
            n,
        ) == b
}

/// The largest number of pairs that `n` buckets hold without growing: three
/// quarters of `n`, rounded down.
pub open spec fn threshold(n: nat) -> nat {
    3 * n / 4
}

/// What makes buckets a table: each pair is in the bucket of its key, no
/// bucket holds a key twice, and the load is at most one above the threshold.
pub open spec fn valid<K: Key, V>(layout: Seq<Seq<(K, V)>>) -> bool {
    &&& placed(layout, layout.len())
    &&& forall|b: int| 0 <= b < layout.len() ==> distinct(#[trigger] layout[b])
    &&& layout.flatten().len() <= threshold(layout.len()) + 1
}

/// `bucket` after the key is given the value: replaced where the key stands,
/// else the pair is appended.
pub open spec fn put<K: View, V>(bucket: Seq<(K, V)>, key: K, value: V) -> Seq<(K, V)> {
    match position(bucket, key@) {
        Some(i) => bucket.update(i, (bucket[i].0, value)),
        None => bucket.push((key, value)),
    }
}

/// `bucket` without the key with view `id`: the last pair takes its place.
pub open spec fn take_out<K: View, V>(bucket: Seq<(K, V)>, id: K::V) -> Seq<(K, V)> {
    match position(bucket, id) {
        Some(i) => bucket.update(i, bucket.last()).drop_last(),
        None => bucket,
    }
}

/// The number of buckets that the first insertion allocates.
pub const INITIAL_NBUCKETS: usize = 1;

/// The number of buckets after growing from `n`: twice as many, or the
/// initial number where there was none.
pub open spec fn grown(n: nat) -> nat {
    if n == 0 {
        INITIAL_NBUCKETS as nat
    } else {
        2 * n
    }
}

/// `pairs` dealt out to `n` buckets: each bucket holds the pairs addressed to
/// it, in the order of `pairs`.
pub open spec fn rehashed<K: Key, V>(pairs: Seq<(K, V)>, n: nat) -> Seq<Seq<(K, V)>> {
    Seq::new(n, |t: int| pairs.filter(addressed::<K, V>(n, t)))
}

/// Whether a pair is addressed to bucket `t` of `n`.
pub open spec fn addressed<K: Key, V>(n: nat, t: int) -> spec_fn((K, V)) -> bool {
    |p: (K, V)| slot::<K>(p.0@, n) == t
}

/// Whether a table must grow before it takes one more pair: it has no
/// bucket, or holds more pairs than the threshold.
pub open spec fn full<K, V>(layout: Seq<Seq<(K, V)>>) -> bool {
    layout.len() == 0 || layout.flatten().len() > threshold(layout.len())
}

/// The layout made ready for one more pair: where it is full, its pairs
/// dealt out to the grown number of buckets.
pub open spec fn readied<K: Key, V>(layout: Seq<Seq<(K, V)>>) -> Seq<Seq<(K, V)>> {
    if full(layout) {
        rehashed(layout.flatten(), grown(layout.len()))
    } else {
        layout
    }
}

/// The layout after the key is given the value: made ready, then the pair
/// put into the bucket of the key.
pub open spec fn inserted<K: Key, V>(layout: Seq<Seq<(K, V)>>, key: K, value: V) -> Seq<
    Seq<(K, V)>,
> {
    let base = readied(layout);
    let b = slot::<K>(key@, base.len());
    base.update(b, put(base[b], key, value))
}

/// The layout after the key with view `id` is removed: taken out of its
/// bucket. The number of buckets stays.
pub open spec fn removed<K: Key, V>(layout: Seq<Seq<(K, V)>>, id: K::V) -> Seq<Seq<(K, V)>> {
    if layout.len() == 0 {
        layout
    } else {
        let b = slot::<K>(id, layout.len());
        layout.update(b, take_out(layout[b], id))
    }
}

/// What `position` says: the first of the positions that hold the key.
pub proof fn lemma_position<K: View, V>(pairs: Seq<(K, V)>, id: K::V)
    ensures
        match position(pairs, id) {
            Some(i) => {
                &&& 0 <= i < pairs.len()
                &&& pairs[i].0@ == id
                &&& forall|j: int| 0 <= j < i ==> (#[trigger] pairs[j]).0@ != id
            },
            None => forall|j: int| 0 <= j < pairs.len() ==> (#[trigger] pairs[j]).0@ != id,
        },
{
    let keys = ids(pairs);
    keys.index_of_first_ensures(id);
    match position(pairs, id) {
        Some(i) => {
            assert forall|j: int| 0 <= j < i implies (#[trigger] pairs[j]).0@ != id by {
                assert(keys[j] != id);
            }
        },
        None => {
            assert forall|j: int| 0 <= j < pairs.len() implies (#[trigger] pairs[j]).0@ != id by {
                assert(keys[j] == pairs[j].0@);
            }
        },
    }
}

/// A position that holds the key, with none before it that does, is the
/// key's position.
pub proof fn lemma_position_is<K: View, V>(pairs: Seq<(K, V)>, id: K::V, i: int)
    requires
        0 <= i < pairs.len(),
        pairs[i].0@ == id,
        forall|j: int| 0 <= j < i ==> (#[trigger] pairs[j]).0@ != id,
    ensures
        position(pairs, id) == Some(i),
{
    lemma_position(pairs, id);
    assert(ids(pairs)[i] == id);
}

/// Where no key occurs twice, each position is the position of its key.
pub proof fn lemma_position_at<K: View, V>(pairs: Seq<(K, V)>, i: int)
    requires
        distinct(pairs),
        0 <= i < pairs.len(),
    ensures
        position(pairs, pairs[i].0@) == Some(i),
{
    lemma_position(pairs, pairs[i].0@);
    let j = position(pairs, pairs[i].0@)->0;
    assert(ids(pairs)[i] == ids(pairs)[j]);
}

/// No position holds the key: it has no position.
pub proof fn lemma_position_none<K: View, V>(pairs: Seq<(K, V)>, id: K::V)
    requires
        forall|j: int| 0 <= j < pairs.len() ==> (#[trigger] pairs[j]).0@ != id,
    ensures
        position(pairs, id) is None,
{
    lemma_position(pairs, id);
}


/// Where no key occurs twice, each pair is what `found` gives for its key.
pub proof fn lemma_found_at<K: View, V>(pairs: Seq<(K, V)>, i: int)
    requires
        distinct(pairs),
        0 <= i < pairs.len(),
    ensures
        found(pairs, pairs[i].0@) == Some(pairs[i].1),
{
    lemma_position_at(pairs, i);
}

/// `put` keeps the keys distinct, sets the value of its key and leaves the
/// other keys alone.
pub proof fn lemma_put<K: View, V>(bucket: Seq<(K, V)>, key: K, value: V)
    requires
        distinct(bucket),
    ensures
        distinct(put(bucket, key, value)),
        forall|id: K::V| #[trigger]
            found(put(bucket, key, value), id) == if id == key@ {
                Some(value)
            } else {
                found(bucket, id)
            },
        forall|i: int|
            0 <= i < put(bucket, key, value).len() ==> {
                ||| (#[trigger] put(bucket, key, value)[i]).0@ == key@
                ||| (i < bucket.len() && put(bucket, key, value)[i] == bucket[i])
            },
{
    let out = put(bucket, key, value);
    lemma_position(bucket, key@);
    match position(bucket, key@) {
        Some(p) => {
            assert(ids(out) =~= ids(bucket));
        },
        None => {
            assert(ids(out) =~= ids(bucket).push(key@));
        },
    }
    assert forall|id: K::V| #[trigger]
        found(out, id) == if id == key@ {
            Some(value)
        } else {
            found(bucket, id)
        } by {
        lemma_position(bucket, id);
        match position(bucket, id) {
            Some(j) => {
                lemma_found_at(out, j);
                if id == key@ {
                    lemma_position_at(bucket, j);
                }
            },
            None => {
                if id == key@ {
                    lemma_found_at(out, bucket.len() as int);
                } else {
                    lemma_position_none(out, id);
                }
            },
        }
    }
}

/// `take_out` keeps the keys distinct, removes its key and leaves the other
/// keys alone.
pub proof fn lemma_take_out<K: View, V>(bucket: Seq<(K, V)>, id0: K::V)
    requires
        distinct(bucket),
    ensures
        distinct(take_out(bucket, id0)),
        forall|id: K::V| #[trigger]
            found(take_out(bucket, id0), id) == if id == id0 {
                None
            } else {
                found(bucket, id)
            },
        forall|i: int|
            0 <= i < take_out(bucket, id0).len() ==> bucket.contains(
                #[trigger] take_out(bucket, id0)[i],
            ),
{
    let out = take_out(bucket, id0);
    let last = bucket.len() - 1;
    lemma_position(bucket, id0);
    match position(bucket, id0) {
        Some(p) => {
            assert forall|i: int, j: int|
                0 <= i < out.len() && 0 <= j < out.len() && i != j implies ids(out)[i] != ids(
                out,
            )[j] by {
                let si = if i == p { last } else { i };
                let sj = if j == p { last } else { j };
                assert(ids(out)[i] == ids(bucket)[si]);
                assert(ids(out)[j] == ids(bucket)[sj]);
            }
            assert forall|i: int| 0 <= i < out.len() implies bucket.contains(
                #[trigger] out[i],
            ) by {
                let si = if i == p { last } else { i };
                assert(out[i] == bucket[si]);
            }
            assert forall|id: K::V| #[trigger]
                found(out, id) == if id == id0 {
                    None
                } else {
                    found(bucket, id)
                } by {
                lemma_position(bucket, id);
                if id == id0 {
                    assert forall|i: int| 0 <= i < out.len() implies (#[trigger] out[i]).0@
                        != id by {
                        let si = if i == p { last } else { i };
                        assert(ids(bucket)[si] != ids(bucket)[p]);
                    }
                    lemma_position_none(out, id);
                } else {
                    match position(bucket, id) {
                        Some(j) => {
                            let i = if j == last { p } else { j };
                            lemma_found_at(out, i);
                        },
                        None => {
                            lemma_position_none(out, id);
                        },
                    }
                }
            }
        },
        None => {
            assert forall|id: K::V| #[trigger]
                found(out, id) == if id == id0 {
                    None
                } else {
                    found(bucket, id)
                } by {}
            assert forall|i: int| 0 <= i < out.len() implies bucket.contains(
                #[trigger] out[i],
            ) by {
                assert(out[i] == bucket[i]);
            }
        },
    }
}


/// A key's bucket is one of the `n` buckets.
pub proof fn lemma_slot_range<K: Key>(id: K::V, n: nat)
    requires
        n > 0,
    ensures
        0 <= slot::<K>(id, n) < n,
{
    vstd::arithmetic::div_mod::lemma_mod_pos_bound(spec_hash::<K>(id) as int, n as int);
}

/// The layout flattened is the layout without its last bucket flattened,
/// followed by that bucket.
pub proof fn lemma_flatten_last<A>(layout: Seq<Seq<A>>)
    requires
        layout.len() > 0,
    ensures
        layout.flatten() =~= layout.drop_last().flatten() + layout.last(),
{
    layout.drop_last().lemma_flatten_push(layout.last());
    assert(layout.drop_last().push(layout.last()) =~= layout);
}

/// Each pair of a bucket occurs in the flattened layout.
pub proof fn lemma_flatten_has<A>(layout: Seq<Seq<A>>, b: int, i: int)
    requires
        0 <= b < layout.len(),
        0 <= i < layout[b].len(),
    ensures
        layout.flatten().contains(layout[b][i]),
    decreases layout.len(),
{
    let init = layout.drop_last();
    lemma_flatten_last(layout);
    if b == layout.len() - 1 {
        let j = init.flatten().len() + i;
        assert(layout.flatten()[j] == layout[b][i]);
    } else {
        lemma_flatten_has(init, b, i);
        let j = choose|j: int| 0 <= j < init.flatten().len() && init.flatten()[j] == init[b][i];
        assert(layout.flatten()[j] == layout[b][i]);
    }
}

/// Each position of the flattened layout is a position of one of the
/// buckets: the result names the bucket and the position in it.
pub proof fn lemma_flatten_from<A>(layout: Seq<Seq<A>>, j: int) -> (at: (int, int))
    requires
        0 <= j < layout.flatten().len(),
    ensures
        0 <= at.0 < layout.len(),
        0 <= at.1 < layout[at.0].len(),
        layout.flatten()[j] == layout[at.0][at.1],
    decreases layout.len(),
{
    if layout.len() == 0 {
        (0, 0)
    } else {
        let init = layout.drop_last();
        lemma_flatten_last(layout);
        if j < init.flatten().len() {
            lemma_flatten_from(init, j)
        } else {
            (layout.len() - 1, j - init.flatten().len())
        }
    }
}

/// Where each pair is in the bucket of its key and no bucket holds a key
/// twice, the whole layout holds no key twice.
pub proof fn lemma_flatten_distinct<K: Key, V>(layout: Seq<Seq<(K, V)>>, n: nat)
    requires
        placed(layout, n),
        forall|b: int| 0 <= b < layout.len() ==> distinct(#[trigger] layout[b]),
    ensures
        distinct(layout.flatten()),
    decreases layout.len(),
{
    if layout.len() > 0 {
        let init = layout.drop_last();
        let last = layout.last();
        lemma_flatten_last(layout);
        assert forall|b: int| 0 <= b < init.len() implies distinct(#[trigger] init[b]) by {
            assert(init[b] == layout[b]);
        }
        assert(placed(init, n)) by {
            assert forall|b: int, i: int| 0 <= b < init.len() && 0 <= i < init[b].len() implies slot::<
                K,
            >((#[trigger] init[b][i]).0@, n) == b by {
                assert(init[b][i] == layout[b][i]);
            }
        }
        lemma_flatten_distinct(init, n);
        let a = ids(init.flatten());
        let z = ids(last);
        assert forall|i: int, j: int| 0 <= i < a.len() && 0 <= j < z.len() implies a[i] != z[j] by {
            let at = lemma_flatten_from(init, i);
            assert(init[at.0][at.1] == layout[at.0][at.1]);
            assert(slot::<K>(layout[at.0][at.1].0@, n) == at.0);
            assert(slot::<K>(layout[layout.len() - 1][j].0@, n) == layout.len() - 1);
        }
        assert(distinct(last));
        lemma_no_dup_in_concat(a, z);
        assert(ids(layout.flatten()) =~= a + z);
    } else {
        assert(ids(layout.flatten()) =~= Seq::empty());
    }
}

/// In a table, what the whole layout holds for a key is what the key's
/// bucket holds for it.
pub proof fn lemma_lookup<K: Key, V>(layout: Seq<Seq<(K, V)>>, id: K::V)
    requires
        placed(layout, layout.len()),
        forall|b: int| 0 <= b < layout.len() ==> distinct(#[trigger] layout[b]),
    ensures
        found(layout.flatten(), id) == if layout.len() > 0 {
            found(layout[slot::<K>(id, layout.len())], id)
        } else {
            None
        },
{
    let all = layout.flatten();
    let n = layout.len();
    lemma_flatten_distinct(layout, n);
    lemma_position(all, id);
    if n > 0 {
        lemma_slot_range::<K>(id, n);
        let s = slot::<K>(id, n);
        let bucket = layout[s];
        lemma_position(bucket, id);
        match position(bucket, id) {
            Some(i) => {
                lemma_flatten_has(layout, s, i);
                let j = choose|j: int| 0 <= j < all.len() && all[j] == layout[s][i];
                lemma_found_at(all, j);
            },
            None => {
                if position(all, id) is Some {
                    let j = position(all, id)->0;
                    let at = lemma_flatten_from(layout, j);
                    assert(slot::<K>(layout[at.0][at.1].0@, n) == at.0);
                    assert(bucket[at.1].0@ == id);
                }
            },
        }
    } else {
        assert(all =~= Seq::empty());
    }
}

/// Where no key occurs twice, the map has as many keys as there are pairs.
pub proof fn lemma_content_len<K: View, V>(pairs: Seq<(K, V)>)
    requires
        distinct(pairs),
    ensures
        content(pairs).dom().finite(),
        content(pairs).len() == pairs.len(),
{
    let keys = ids(pairs);
    assert(content(pairs).dom() =~= keys.to_set()) by {
        assert forall|id: K::V| content(pairs).dom().contains(id) == keys.to_set().contains(
            id,
        ) by {
            keys.index_of_first_ensures(id);
        }
    }
    keys.unique_seq_to_set();
    vstd::seq_lib::seq_to_set_is_finite(keys);
}


/// Giving a key a value in its bucket gives it that value in the map, and
/// the table stays one but for its load.
pub proof fn lemma_table_put<K: Key, V>(layout: Seq<Seq<(K, V)>>, key: K, value: V)
    requires
        layout.len() > 0,
        placed(layout, layout.len()),
        forall|b: int| 0 <= b < layout.len() ==> distinct(#[trigger] layout[b]),
    ensures
        ({
            let b = slot::<K>(key@, layout.len());
            let out = layout.update(b, put(layout[b], key, value));
            &&& 0 <= b < layout.len()
            &&& placed(out, out.len())
            &&& forall|t: int| 0 <= t < out.len() ==> distinct(#[trigger] out[t])
            &&& content(out.flatten()) == content(layout.flatten()).insert(key@, value)
            &&& found(layout[b], key@) == lookup(content(layout.flatten()), key@)
            &&& out.flatten().len() == layout.flatten().len() + if found(layout[b], key@) is None {
                1int
            } else {
                0int
            }
        }),
{
    let n = layout.len();
    let b = slot::<K>(key@, n);
    lemma_slot_range::<K>(key@, n);
    let out = layout.update(b, put(layout[b], key, value));
    lemma_put(layout[b], key, value);
    assert forall|t: int| 0 <= t < out.len() implies distinct(#[trigger] out[t]) by {
        if t != b {
            assert(out[t] == layout[t]);
        }
    }
    assert forall|t: int, i: int| 0 <= t < out.len() && 0 <= i < out[t].len() implies slot::<K>(
        (#[trigger] out[t][i]).0@,
        n,
    ) == t by {
        if t != b {
            assert(out[t][i] == layout[t][i]);
        } else {
            let p = put(layout[b], key, value);
            assert(p[i].0@ == key@ || (i < layout[b].len() && p[i] == layout[b][i]));
        }
    }
    let before = content(layout.flatten());
    let after = content(out.flatten());
    assert forall|id: K::V| #[trigger]
        found(out.flatten(), id) == if id == key@ {
            Some(value)
        } else {
            found(layout.flatten(), id)
        } by {
        lemma_lookup(out, id);
        lemma_lookup(layout, id);
        lemma_slot_range::<K>(id, n);
        assert(found(put(layout[b], key, value), id) == if id == key@ {
            Some(value)
        } else {
            found(layout[b], id)
        });
    }
    assert(after =~= before.insert(key@, value)) by {
        assert forall|id: K::V| after.contains_key(id) == before.insert(key@, value).contains_key(
            id,
        ) by {
            assert(found(out.flatten(), id) == if id == key@ {
                Some(value)
            } else {
                found(layout.flatten(), id)
            });
        }
        assert forall|id: K::V| after.contains_key(id) implies after[id] == before.insert(
            key@,
            value,
        )[id] by {
            assert(found(out.flatten(), id) == if id == key@ {
                Some(value)
            } else {
                found(layout.flatten(), id)
            });
        }
    }
    lemma_lookup(layout, key@);
    lemma_flatten_distinct(layout, n);
    lemma_flatten_distinct(out, n);
    lemma_content_len(layout.flatten());
    lemma_content_len(out.flatten());
}

/// Taking a key out of its bucket takes it out of the map, and the table
/// stays one.
pub proof fn lemma_table_take_out<K: Key, V>(layout: Seq<Seq<(K, V)>>, id0: K::V)
    requires
        layout.len() > 0,
        placed(layout, layout.len()),
        forall|b: int| 0 <= b < layout.len() ==> distinct(#[trigger] layout[b]),
    ensures
        ({
            let b = slot::<K>(id0, layout.len());
            let out = layout.update(b, take_out(layout[b], id0));
            &&& 0 <= b < layout.len()
            &&& placed(out, out.len())
            &&& forall|t: int| 0 <= t < out.len() ==> distinct(#[trigger] out[t])
            &&& content(out.flatten()) == content(layout.flatten()).remove(id0)
            &&& found(layout[b], id0) == lookup(content(layout.flatten()), id0)
            &&& out.flatten().len() == layout.flatten().len() - if found(layout[b], id0) is None {
                0int
            } else {
                1int
            }
        }),
{
    let n = layout.len();
    let b = slot::<K>(id0, n);
    lemma_slot_range::<K>(id0, n);
    let out = layout.update(b, take_out(layout[b], id0));
    lemma_take_out(layout[b], id0);
    assert forall|t: int| 0 <= t < out.len() implies distinct(#[trigger] out[t]) by {
        if t != b {
            assert(out[t] == layout[t]);
        }
    }
    assert forall|t: int, i: int| 0 <= t < out.len() && 0 <= i < out[t].len() implies slot::<K>(
        (#[trigger] out[t][i]).0@,
        n,
    ) == t by {
        if t != b {
            assert(out[t][i] == layout[t][i]);
        } else {
            let p = take_out(layout[b], id0);
            assert(layout[b].contains(p[i]));
            let j = choose|j: int| 0 <= j < layout[b].len() && layout[b][j] == p[i];
            assert(slot::<K>(layout[b][j].0@, n) == b);
        }
    }
    let before = content(layout.flatten());
    let after = content(out.flatten());
    assert forall|id: K::V| #[trigger]
        found(out.flatten(), id) == if id == id0 {
            None
        } else {
            found(layout.flatten(), id)
        } by {
        lemma_lookup(out, id);
        lemma_lookup(layout, id);
        lemma_slot_range::<K>(id, n);
        assert(found(take_out(layout[b], id0), id) == if id == id0 {
            None
        } else {
            found(layout[b], id)
        });
    }
    assert(after =~= before.remove(id0)) by {
        assert forall|id: K::V| after.contains_key(id) == before.remove(id0).contains_key(id) by {
            assert(found(out.flatten(), id) == if id == id0 {
                None
            } else {
                found(layout.flatten(), id)
            });
        }
        assert forall|id: K::V| after.contains_key(id) implies after[id] == before.remove(
            id0,
        )[id] by {
            assert(found(out.flatten(), id) == if id == id0 {
                None
            } else {
                found(layout.flatten(), id)
            });
        }
    }
    lemma_lookup(layout, id0);
    lemma_flatten_distinct(layout, n);
    lemma_flatten_distinct(out, n);
    lemma_content_len(layout.flatten());
    lemma_content_len(out.flatten());
}


/// A selection of pairs whose keys are distinct has distinct keys.
pub proof fn lemma_filter_distinct<K: View, V>(pairs: Seq<(K, V)>, pred: spec_fn((K, V)) -> bool)
    requires
        distinct(pairs),
    ensures
        distinct(pairs.filter(pred)),
    decreases pairs.len(),
{
    if pairs.len() == 0 {
        reveal(Seq::filter);
    } else {
        let init = pairs.drop_last();
        let last = pairs.last();
        assert(init.push(last) =~= pairs);
        init.lemma_filter_push(last, pred);
        assert(distinct(init)) by {
            assert forall|i: int, j: int|
                0 <= i < init.len() && 0 <= j < init.len() && i != j implies ids(init)[i] != ids(
                init,
            )[j] by {
                assert(ids(init)[i] == ids(pairs)[i]);
                assert(ids(init)[j] == ids(pairs)[j]);
            }
        }
        lemma_filter_distinct(init, pred);
        if pred(last) {
            let kept = init.filter(pred);
            let out = kept.push(last);
            assert forall|i: int, j: int|
                0 <= i < out.len() && 0 <= j < out.len() && i != j implies ids(out)[i] != ids(
                out,
            )[j] by {
                if i < kept.len() && j < kept.len() {
                    assert(ids(out)[i] == ids(kept)[i]);
                    assert(ids(out)[j] == ids(kept)[j]);
                } else {
                    let k = if i < kept.len() { i } else { j };
                    assert(kept.contains(kept[k]));
                    init.lemma_filter_contains_rev(pred, kept[k]);
                    let m = choose|m: int| 0 <= m < init.len() && init[m] == kept[k];
                    assert(ids(pairs)[m] != ids(pairs)[pairs.len() - 1]);
                }
            }
        }
    }
}

/// Dealing one more pair out adds it at the end of the bucket that its key
/// is addressed to.
pub proof fn lemma_rehashed_push<K: Key, V>(pairs: Seq<(K, V)>, pair: (K, V), n: nat)
    requires
        n > 0,
    ensures
        ({
            let s = slot::<K>(pair.0@, n);
            &&& 0 <= s < n
            &&& rehashed(pairs.push(pair), n) == rehashed(pairs, n).update(
                s,
                rehashed(pairs, n)[s].push(pair),
            )
        }),
{
    let s = slot::<K>(pair.0@, n);
    lemma_slot_range::<K>(pair.0@, n);
    let before = rehashed(pairs, n);
    let after = rehashed(pairs.push(pair), n);
    assert forall|t: int| 0 <= t < n implies after[t] == before.update(s, before[s].push(pair))[t] by {
        pairs.lemma_filter_push(pair, addressed::<K, V>(n, t));
    }
    assert(after =~= before.update(s, before[s].push(pair)));
}

/// Nothing dealt out leaves every bucket empty.
pub proof fn lemma_rehashed_empty<K: Key, V>(n: nat)
    ensures
        rehashed(Seq::<(K, V)>::empty(), n) == Seq::new(n, |t: int| Seq::<(K, V)>::empty()),
{
    reveal(Seq::filter);
    assert(rehashed(Seq::<(K, V)>::empty(), n) =~= Seq::new(n, |t: int| Seq::<(K, V)>::empty()));
}

/// Pairs with distinct keys, dealt out to buckets, make a table but for the
/// load, and it stands for the same map.
pub proof fn lemma_rehashed<K: Key, V>(pairs: Seq<(K, V)>, n: nat)
    requires
        distinct(pairs),
        n > 0,
    ensures
        ({
            let out = rehashed(pairs, n);
            &&& out.len() == n
            &&& placed(out, n)
            &&& forall|t: int| 0 <= t < out.len() ==> distinct(#[trigger] out[t])
            &&& content(out.flatten()) == content(pairs)
            &&& out.flatten().len() == pairs.len()
        }),
{
    broadcast use vstd::seq_lib::group_filter_ensures;

    let out = rehashed(pairs, n);
    assert forall|t: int| 0 <= t < out.len() implies distinct(#[trigger] out[t]) by {
        lemma_filter_distinct(pairs, addressed::<K, V>(n, t));
    }
    assert(placed(out, n)) by {
        assert forall|t: int, i: int| 0 <= t < out.len() && 0 <= i < out[t].len() implies slot::<K>(
            (#[trigger] out[t][i]).0@,
            n,
        ) == t by {
            pairs.lemma_filter_pred(addressed::<K, V>(n, t), i);
        }
    }
    assert forall|id: K::V| #[trigger] found(out.flatten(), id) == found(pairs, id) by {
        lemma_lookup(out, id);
        lemma_slot_range::<K>(id, n);
        let t = slot::<K>(id, n);
        let pred = addressed::<K, V>(n, t);
        let bucket = out[t];
        lemma_position(pairs, id);
        match position(pairs, id) {
            Some(j) => {
                pairs.lemma_filter_contains(pred, j);
                let i = choose|i: int| 0 <= i < bucket.len() && bucket[i] == pairs[j];
                lemma_found_at(bucket, i);
            },
            None => {
                assert forall|i: int| 0 <= i < bucket.len() implies (#[trigger] bucket[i]).0@
                    != id by {
                    assert(bucket.contains(bucket[i]));
                    pairs.lemma_filter_contains_rev(pred, bucket[i]);
                    let j = choose|j: int| 0 <= j < pairs.len() && pairs[j] == bucket[i];
                    assert(pairs[j].0@ != id);
                }
                lemma_position_none(bucket, id);
            },
        }
    }
    assert(content(out.flatten()) =~= content(pairs)) by {
        assert forall|id: K::V|
            content(out.flatten()).contains_key(id) == content(pairs).contains_key(id) by {
            assert(found(out.flatten(), id) == found(pairs, id));
        }
        assert forall|id: K::V| content(pairs).contains_key(id) implies content(
            out.flatten(),
        )[id] == content(pairs)[id] by {
            assert(found(out.flatten(), id) == found(pairs, id));
        }
    }
    lemma_flatten_distinct(out, n);
    lemma_content_len(out.flatten());
    lemma_content_len(pairs);
}


/// A table made ready for one more pair has a bucket, room under the
/// threshold, and stands for the same map.
pub proof fn lemma_readied<K: Key, V>(layout: Seq<Seq<(K, V)>>)
    requires
        valid(layout),
    ensures
        ({
            let base = readied(layout);
            &&& base.len() > 0
            &&& placed(base, base.len())
            &&& forall|t: int| 0 <= t < base.len() ==> distinct(#[trigger] base[t])
            &&& content(base.flatten()) == content(layout.flatten())
            &&& base.flatten().len() == layout.flatten().len()
            &&& base.flatten().len() <= threshold(base.len())
        }),
{
    if full(layout) {
        lemma_flatten_distinct(layout, layout.len());
        lemma_rehashed(layout.flatten(), grown(layout.len()));
        if layout.len() == 0 {
            assert(layout.flatten() =~= Seq::empty());
        }
    }
}

/// Inserting into a table gives a table; its map is the old one with the
/// key at the value, and it holds one pair more exactly if the key is new.
pub proof fn lemma_inserted<K: Key, V>(layout: Seq<Seq<(K, V)>>, key: K, value: V)
    requires
        valid(layout),
    ensures
        valid(inserted(layout, key, value)),
        content(inserted(layout, key, value).flatten()) == content(layout.flatten()).insert(
            key@,
            value,
        ),
        inserted(layout, key, value).flatten().len() == layout.flatten().len() + if content(
            layout.flatten(),
        ).contains_key(key@) {
            0int
        } else {
            1int
        },
{
    lemma_readied(layout);
    lemma_table_put(readied(layout), key, value);
}

/// Removing from a table gives a table; its map is the old one without the
/// key, and it holds one pair less exactly if the key was there.
pub proof fn lemma_removed<K: Key, V>(layout: Seq<Seq<(K, V)>>, id: K::V)
    requires
        valid(layout),
    ensures
        valid(removed(layout, id)),
        content(removed(layout, id).flatten()) == content(layout.flatten()).remove(id),
        removed(layout, id).flatten().len() == layout.flatten().len() - if content(
            layout.flatten(),
        ).contains_key(id) {
            1int
        } else {
            0int
        },
{
    if layout.len() == 0 {
        lemma_lookup(layout, id);
        assert(content(layout.flatten()).remove(id) =~= content(layout.flatten()));
    } else {
        lemma_table_take_out(layout, id);
    }
}

} // verus!
