//! What holds of every table, whatever was inserted into it and removed
//! from it, and however often it grew.
use crate::key::Key;
use crate::model::{
    content, distinct, found, ids, inserted, lemma_content_len, lemma_flatten_distinct,
    lemma_found_at, lemma_inserted, lemma_lookup, lemma_position, lemma_put, lemma_removed,
    lemma_slot_range, lookup, position, put, removed, valid,
};
use vstd::prelude::*;

verus! {

/// The layout after the pairs are inserted, one after the other.
pub open spec fn inserted_all<K: Key, V>(layout: Seq<Seq<(K, V)>>, pairs: Seq<(K, V)>) -> Seq<
    Seq<(K, V)>,
>
    decreases pairs.len(),
{
    if pairs.len() == 0 {
        layout
    } else {
        inserted(inserted_all(layout, pairs.drop_last()), pairs.last().0, pairs.last().1)
    }
}

/// Each pair of `pairs` as the view of its key and its value.
pub open spec fn facts<K: View, V>(pairs: Seq<(K, V)>) -> Seq<(K::V, V)> {
    pairs.map_values(|p: (K, V)| (p.0@, p.1))
}

/// A key that was given a value has that value: a lookup after an insertion
/// finds what was inserted.
pub proof fn law_round_trip<K: Key, V>(layout: Seq<Seq<(K, V)>>, key: K, value: V)
    requires
        valid(layout),
    ensures
        lookup(content(inserted(layout, key, value).flatten()), key@) == Some(value),
{
    lemma_inserted(layout, key, value);
}

/// Inserting a key a second time hands back the value of the first time,
/// leaves the key with the value of the second time, and adds no pair.
pub proof fn law_overwrite<K: Key, V>(
    layout: Seq<Seq<(K, V)>>,
    key: K,
    first: V,
    again: K,
    second: V,
)
    requires
        valid(layout),
        again@ == key@,
    ensures
        ({
            let once = inserted(layout, key, first);
            let twice = inserted(once, again, second);
            &&& lookup(content(once.flatten()), again@) == Some(first)
            &&& lookup(content(twice.flatten()), key@) == Some(second)
            &&& twice.flatten().len() == once.flatten().len()
        }),
{
    lemma_inserted(layout, key, first);
    lemma_inserted(inserted(layout, key, first), again, second);
}

/// Removing a key that was inserted hands back its value, and the key is
/// gone afterwards.
pub proof fn law_removal<K: Key, V>(layout: Seq<Seq<(K, V)>>, key: K, value: V)
    requires
        valid(layout),
    ensures
        ({
            let with = inserted(layout, key, value);
            let without = removed(with, key@);
            &&& lookup(content(with.flatten()), key@) == Some(value)
            &&& lookup(content(without.flatten()), key@) is None
        }),
{
    lemma_inserted(layout, key, value);
    lemma_removed(inserted(layout, key, value), key@);
}

/// Removing a key that is not there finds nothing and changes nothing.
pub proof fn law_removal_of_absent<K: Key, V>(layout: Seq<Seq<(K, V)>>, id: K::V)
    requires
        valid(layout),
        lookup(content(layout.flatten()), id) is None,
    ensures
        removed(layout, id) == layout,
{
    if layout.len() > 0 {
        lemma_lookup(layout, id);
        lemma_slot_range::<K>(id, layout.len());
        assert(removed(layout, id) =~= layout);
    }
}

/// The number of stored pairs is the number of keys of the map. An insertion
/// adds one exactly if the key is new, a removal takes one away exactly if
/// the key was there.
pub proof fn law_size<K: Key, V>(layout: Seq<Seq<(K, V)>>, key: K, value: V)
    requires
        valid(layout),
    ensures
        content(layout.flatten()).dom().finite(),
        layout.flatten().len() == content(layout.flatten()).len(),
        inserted(layout, key, value).flatten().len() == layout.flatten().len() + if content(
            layout.flatten(),
        ).contains_key(key@) {
            0int
        } else {
            1int
        },
        removed(layout, key@).flatten().len() == layout.flatten().len() - if content(
            layout.flatten(),
        ).contains_key(key@) {
            1int
        } else {
            0int
        },
{
    lemma_flatten_distinct(layout, layout.len());
    lemma_content_len(layout.flatten());
    lemma_inserted(layout, key, value);
    lemma_removed(layout, key@);
}

/// What stays a table stays one through any number of insertions.
pub proof fn lemma_inserted_all_valid<K: Key, V>(layout: Seq<Seq<(K, V)>>, pairs: Seq<(K, V)>)
    requires
        valid(layout),
    ensures
        valid(inserted_all(layout, pairs)),
    decreases pairs.len(),
{
    if pairs.len() > 0 {
        lemma_inserted_all_valid(layout, pairs.drop_last());
        lemma_inserted(inserted_all(layout, pairs.drop_last()), pairs.last().0, pairs.last().1);
    }
}

/// After pairs with distinct keys are inserted, each of the keys is found
/// with its value, however often the table grew on the way.
pub proof fn law_growth<K: Key, V>(layout: Seq<Seq<(K, V)>>, pairs: Seq<(K, V)>)
    requires
        valid(layout),
        distinct(pairs),
    ensures
        valid(inserted_all(layout, pairs)),
        forall|i: int|
            0 <= i < pairs.len() ==> lookup(
                content(inserted_all(layout, pairs).flatten()),
                (#[trigger] pairs[i]).0@,
            ) == Some(pairs[i].1),
    decreases pairs.len(),
{
    lemma_inserted_all_valid(layout, pairs);
    if pairs.len() > 0 {
        let init = pairs.drop_last();
        let last = pairs.last();
        let before = inserted_all(layout, init);
        assert(distinct(init)) by {
            assert forall|i: int, j: int|
                0 <= i < init.len() && 0 <= j < init.len() && i != j implies ids(init)[i] != ids(
                init,
            )[j] by {
                assert(ids(init)[i] == ids(pairs)[i]);
                assert(ids(init)[j] == ids(pairs)[j]);
            }
        }
        law_growth(layout, init);
        lemma_inserted(before, last.0, last.1);
        assert forall|i: int| 0 <= i < pairs.len() implies lookup(
            content(inserted_all(layout, pairs).flatten()),
            (#[trigger] pairs[i]).0@,
        ) == Some(pairs[i].1) by {
            if i < init.len() {
                assert(init[i] == pairs[i]);
                assert(ids(pairs)[i] != ids(pairs)[pairs.len() - 1]);
            }
        }
    }
}

/// Inserted into an empty table, pairs with distinct keys give a table that
/// stands for the map of the pairs.
pub proof fn lemma_inserted_all_content<K: Key, V>(pairs: Seq<(K, V)>)
    requires
        distinct(pairs),
    ensures
        valid(inserted_all(Seq::<Seq<(K, V)>>::empty(), pairs)),
        content(inserted_all(Seq::<Seq<(K, V)>>::empty(), pairs).flatten()) == content(pairs),
    decreases pairs.len(),
{
    let start = Seq::<Seq<(K, V)>>::empty();
    assert(start.flatten() =~= Seq::<(K, V)>::empty());
    assert(valid(start));
    lemma_inserted_all_valid(start, pairs);
    if pairs.len() == 0 {
        assert(pairs =~= start.flatten());
    } else {
        let init = pairs.drop_last();
        let last = pairs.last();
        assert(distinct(init)) by {
            assert forall|i: int, j: int|
                0 <= i < init.len() && 0 <= j < init.len() && i != j implies ids(init)[i] != ids(
                init,
            )[j] by {
                assert(ids(init)[i] == ids(pairs)[i]);
                assert(ids(init)[j] == ids(pairs)[j]);
            }
        }
        lemma_inserted_all_content(init);
        lemma_inserted(inserted_all(start, init), last.0, last.1);
        lemma_put(init, last.0, last.1);
        lemma_position(init, last.0@);
        assert(position(init, last.0@) is None) by {
            if position(init, last.0@) is Some {
                let j = position(init, last.0@)->0;
                assert(ids(pairs)[j] == ids(pairs)[pairs.len() - 1]);
            }
        }
        assert(put(init, last.0, last.1) =~= pairs);
        assert(content(pairs) =~= content(init).insert(last.0@, last.1));
    }
}

/// Two sequences of pairs with distinct keys that stand for the same map
/// hold the same pairs, each once.
pub proof fn lemma_same_facts<K: View, V>(a: Seq<(K, V)>, b: Seq<(K, V)>)
    requires
        distinct(a),
        distinct(b),
        content(a) == content(b),
    ensures
        facts(a).to_multiset() == facts(b).to_multiset(),
{
    lemma_facts_count(a);
    lemma_facts_count(b);
    assert(facts(a).to_multiset() =~= facts(b).to_multiset()) by {
        assert forall|x: (K::V, V)|
            facts(a).to_multiset().count(x) == facts(b).to_multiset().count(x) by {
            assert(lookup(content(a), x.0) == found(a, x.0));
            assert(lookup(content(b), x.0) == found(b, x.0));
        }
    }
}

/// Among pairs with distinct keys, a pair occurs once if the key has that
/// value, and else not at all.
pub proof fn lemma_facts_count<K: View, V>(pairs: Seq<(K, V)>)
    requires
        distinct(pairs),
    ensures
        forall|x: (K::V, V)| #[trigger]
            facts(pairs).to_multiset().count(x) == if found(pairs, x.0) == Some(x.1) {
                1nat
            } else {
                0nat
            },
{
    let all = facts(pairs);
    assert(all.no_duplicates()) by {
        assert forall|i: int, j: int| 0 <= i < all.len() && 0 <= j < all.len() && i != j implies all[i]
            != all[j] by {
            assert(ids(pairs)[i] != ids(pairs)[j]);
        }
    }
    all.lemma_multiset_has_no_duplicates();
    all.to_multiset_ensures();
    assert forall|x: (K::V, V)| #[trigger]
        all.to_multiset().count(x) == if found(pairs, x.0) == Some(x.1) {
            1nat
        } else {
            0nat
        } by {
        lemma_position(pairs, x.0);
        if found(pairs, x.0) == Some(x.1) {
            let i = position(pairs, x.0)->0;
            assert(all[i] == x);
            assert(all.contains(x));
        } else {
            if all.contains(x) {
                let i = choose|i: int| 0 <= i < all.len() && all[i] == x;
                lemma_found_at(pairs, i);
            }
        }
    }
}

/// A traversal of a table meets each key of its map once, with its value.
pub proof fn law_traversal<K: Key, V>(layout: Seq<Seq<(K, V)>>)
    requires
        valid(layout),
    ensures
        distinct(layout.flatten()),
        layout.flatten().len() == content(layout.flatten()).len(),
        forall|i: int|
            0 <= i < layout.flatten().len() ==> content(layout.flatten()).contains_pair(
                (#[trigger] layout.flatten()[i]).0@,
                layout.flatten()[i].1,
            ),
        forall|x: (K::V, V)| #[trigger]
            facts(layout.flatten()).to_multiset().count(x) == if content(
                layout.flatten(),
            ).contains_pair(x.0, x.1) {
                1nat
            } else {
                0nat
            },
{
    lemma_flatten_distinct(layout, layout.len());
    lemma_content_len(layout.flatten());
    lemma_facts_count(layout.flatten());
    assert forall|i: int| 0 <= i < layout.flatten().len() implies content(
        layout.flatten(),
    ).contains_pair((#[trigger] layout.flatten()[i]).0@, layout.flatten()[i].1) by {
        lemma_found_at(layout.flatten(), i);
    }
}

/// After pairs with distinct keys are inserted into an empty table and none
/// is removed, a traversal meets exactly those pairs, each once.
pub proof fn law_traversal_of_inserted<K: Key, V>(pairs: Seq<(K, V)>)
    requires
        distinct(pairs),
    ensures
        facts(inserted_all(Seq::<Seq<(K, V)>>::empty(), pairs).flatten()).to_multiset() == facts(
            pairs,
        ).to_multiset(),
{
    let table = inserted_all(Seq::<Seq<(K, V)>>::empty(), pairs);
    lemma_inserted_all_content(pairs);
    lemma_flatten_distinct(table, table.len());
    lemma_same_facts(table.flatten(), pairs);
}

} // verus!
