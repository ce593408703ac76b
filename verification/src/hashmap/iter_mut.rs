use crate::hashmap::iter::remaining_pairs;
use crate::hashmap::{
    bucket_distinct, bucket_index_of, bucket_key_index, same_configuration,
    table_distinct, table_placed, Entry, HashMap, MapKey,
};
use vstd::prelude::*;

verus! {

/// The mutable-value view: a cursor over the map's entries that yields
/// each key read-only beside a writable reference to its value. Only the
/// value can be rebound; keys stay fixed, which keeps every entry in the
/// bucket its digest selects.
pub struct IterMut {
    bucket: usize,
    offset: usize,
}

impl<K: MapKey, V> HashMap<K, V> {
    /// Opens the mutable-value view, positioned to visit every entry the
    /// map holds exactly once.
    pub fn iter_mut(&mut self) -> (it: IterMut)
        requires
            old(self).well_formed(),
        ensures
            *final(self) == *old(self),
            forall|t: int|
                0 <= t < it.remaining(*old(self)).len() ==> old(self)@.contains_key(
                    (#[trigger] it.remaining(*old(self))[t]).0,
                ) && old(self)@[it.remaining(*old(self))[t].0] == it.remaining(*old(self))[t].1,
            forall|k: K| #[trigger]
                old(self)@.contains_key(k) ==> exists|t: int|
                    0 <= t < it.remaining(*old(self)).len() && (#[trigger] it.remaining(
                        *old(self),
                    )[t]).0 == k,
            forall|t1: int, t2: int|
                0 <= t1 < t2 < it.remaining(*old(self)).len() ==> (#[trigger] it.remaining(
                    *old(self),
                )[t1]).0 != (#[trigger] it.remaining(*old(self))[t2]).0,
            it.remaining(*old(self)).len() == old(self)@.len(),
    {
        let it = IterMut { bucket: 0, offset: 0 };
        proof {
            crate::hashmap::iter::lemma_remaining_pairs_positions(self.items@, 0, 0);
            self.lemma_view_as_pairs();
            let pairs = it.remaining(*self);
            assert forall|t: int| 0 <= t < pairs.len() implies self@.contains_key(
                (#[trigger] pairs[t]).0,
            ) && self@[pairs[t].0] == pairs[t].1 by {
                assert(crate::hashmap::iter::pair_from_table(self.items@, 0, 0, t));
                let (x, y) = choose|x: int, y: int|
                    0 <= x < self.items@.len() && 0 <= y < self.items@[x]@.len() && (x > 0 || (x
                        == 0 && y >= 0)) && (#[trigger] self.items@[x]@[y]).key == pairs[t].0
                        && self.items@[x]@[y].value == pairs[t].1;
                assert(crate::hashmap::tail_has_pair(self.items@, 0, pairs[t].0, pairs[t].1));
            }
            assert forall|k: K| #[trigger] self@.contains_key(k) implies exists|t: int|
                0 <= t < it.remaining(*self).len() && (#[trigger] it.remaining(*self)[t]).0
                    == k by {
                let v = self@[k];
                assert(crate::hashmap::tail_has_pair(self.items@, 0, k, v));
                let (x, y) = choose|x: int, y: int|
                    0 <= x < self.items@.len() && 0 <= y < self.items@[x]@.len() && (
                    #[trigger] self.items@[x]@[y]).key == k && self.items@[x]@[y].value == v;
                assert(crate::hashmap::iter::pair_is_yielded(self.items@, 0, 0, x, y));
                let t = choose|t: int|
                    0 <= t < pairs.len() && self.items@[x]@[y].key == (#[trigger] pairs[t]).0
                        && self.items@[x]@[y].value == pairs[t].1;
                assert(0 <= t < it.remaining(*self).len() && (it.remaining(*self)[t]).0 == k);
            }
            crate::hashmap::lemma_covering_distinct_pairs_len(pairs, self@);
        }
        it
    }

    /// The backing table, exposed only to state where a cursor stands.
    pub(crate) closed spec fn table_spec(&self) -> Seq<Vec<Entry<K, V>>> {
        self.items@
    }
}

/// Two tables hold equal entries at every position from (i, j) onward.
spec fn tables_agree_from<K, V>(
    t1: Seq<Vec<Entry<K, V>>>,
    t2: Seq<Vec<Entry<K, V>>>,
    i: int,
    j: int,
) -> bool {
    &&& t1.len() == t2.len()
    &&& forall|x: int| 0 <= x < t1.len() ==> (#[trigger] t1[x])@.len() == t2[x]@.len()
    &&& forall|x: int, y: int|
        0 <= x < t1.len() && 0 <= y < t1[x]@.len() && (x > i || (x == i && y >= j))
            ==> #[trigger] t1[x]@[y] == #[trigger] t2[x]@[y]
}

/// A traversal reads only the positions it has not yet passed, so two
/// tables agreeing there yield the same pairs.
proof fn lemma_remaining_pairs_agree<K, V>(
    t1: Seq<Vec<Entry<K, V>>>,
    t2: Seq<Vec<Entry<K, V>>>,
    i: int,
    j: int,
)
    requires
        tables_agree_from(t1, t2, i, j),
        0 <= i,
        0 <= j,
    ensures
        remaining_pairs(t1, i, j) == remaining_pairs(t2, i, j),
    decreases t1.len() - i, t1[i]@.len() - j,
{
    if 0 <= i < t1.len() {
        if 0 <= j < t1[i]@.len() {
            assert(t1[i]@[j] == t2[i]@[j]);
            lemma_remaining_pairs_agree(t1, t2, i, j + 1);
            assert(remaining_pairs(t1, i, j) =~= remaining_pairs(t2, i, j));
        } else {
            lemma_remaining_pairs_agree(t1, t2, i + 1, 0);
        }
    }
}

/// Replacing one stored value, key untouched, leaves a well-formed map
/// whose view only rebinds that key.
proof fn lemma_value_replaced<K: MapKey, V>(pre: HashMap<K, V>, post: HashMap<K, V>, i: int, j: int)
    requires
        pre.well_formed(),
        0 <= i < pre.table_spec().len(),
        0 <= j < pre.table_spec()[i]@.len(),
        post.table_spec().len() == pre.table_spec().len(),
        forall|x: int|
            0 <= x < pre.table_spec().len() && x != i ==> #[trigger] post.table_spec()[x]
                == pre.table_spec()[x],
        post.table_spec()[i]@ == pre.table_spec()[i]@.update(
            j,
            Entry { key: pre.table_spec()[i]@[j].key, value: post.table_spec()[i]@[j].value },
        ),
        post.size_field() == pre.size_field(),
        same_configuration(post, pre),
    ensures
        post.well_formed(),
        post@ == pre@.insert(pre.table_spec()[i]@[j].key, post.table_spec()[i]@[j].value),
{
    let t1 = pre.table_spec();
    let t2 = post.table_spec();
    let key = t1[i]@[j].key;
    let value = t2[i]@[j].value;
    assert(forall|x: int, y: int|
        0 <= x < t2.len() && 0 <= y < t2[x]@.len() ==> #[trigger] t2[x]@[y] == (if x == i && y == j {
            Entry { key, value }
        } else {
            t1[x]@[y]
        }));
    assert(table_placed(t2));
    assert(table_distinct(t2)) by {
        assert forall|x: int| 0 <= x < t2.len() implies bucket_distinct((#[trigger] t2[x])@) by {
            assert(bucket_distinct(t1[x]@));
            assert forall|j1: int, j2: int|
                0 <= j1 < j2 < t2[x]@.len() implies (#[trigger] t2[x]@[j1]).key != (
            #[trigger] t2[x]@[j2]).key by {
                assert(t2[x]@[j1].key == t1[x]@[j1].key);
                assert(t2[x]@[j2].key == t1[x]@[j2].key);
            }
        }
    }
    crate::hashmap::lemma_table_globally_distinct(t1);
    assert forall|k: K| #[trigger] post@.contains_key(k) implies pre@.insert(
        key,
        value,
    ).contains_key(k) && post@[k] == pre@.insert(key, value)[k] by {
        let ki = bucket_index_of(k.hash_spec(), t2.len() as int);
        let kb = post.bucket_for(k);
        let t = bucket_key_index(kb, k);
        crate::hashmap::lemma_bucket_found(kb, k, t);
        if k != key {
            assert(t1[ki]@[t].key == k && t1[ki]@[t].value == t2[ki]@[t].value);
            crate::hashmap::lemma_bucket_found(pre.bucket_for(k), k, t);
        } else {
            assert(ki == i && t == j);
        }
    }
    assert forall|k: K| #[trigger] pre@.insert(key, value).contains_key(k) implies
        post@.contains_key(k) by {
        if k != key {
            let ki = bucket_index_of(k.hash_spec(), t1.len() as int);
            let kb = pre.bucket_for(k);
            let t = bucket_key_index(kb, k);
            crate::hashmap::lemma_bucket_found(kb, k, t);
            assert(t2[ki]@[t].key == k);
        } else {
            assert(t2[i]@[j].key == key);
        }
    }
    assert(post@ =~= pre@.insert(key, value));
    assert(post@.dom() =~= pre@.dom().insert(key));
}

/// Every way of rebinding the value at slot (i, j) — and nothing else —
/// leaves a well-formed map that merely re-associates that slot's key, and
/// does not disturb the entries a cursor past (i, j) still visits.
proof fn lemma_value_replaced_all<K: MapKey, V>(pre: HashMap<K, V>, i: int, j: int)
    requires
        pre.well_formed(),
        0 <= i < pre.table_spec().len(),
        0 <= j < pre.table_spec()[i]@.len(),
    ensures
        forall|post: HashMap<K, V>|
            {
                &&& (#[trigger] post.table_spec()).len() == pre.table_spec().len()
                &&& (forall|x: int|
                    0 <= x < pre.table_spec().len() && x != i ==> #[trigger] post.table_spec()[x]
                        == pre.table_spec()[x])
                &&& post.table_spec()[i]@ == pre.table_spec()[i]@.update(
                    j,
                    Entry {
                        key: pre.table_spec()[i]@[j].key,
                        value: post.table_spec()[i]@[j].value,
                    },
                )
                &&& post.size_field() == pre.size_field()
                &&& same_configuration(post, pre)
            } ==> {
                &&& post.well_formed()
                &&& post@ == pre@.insert(
                    pre.table_spec()[i]@[j].key,
                    post.table_spec()[i]@[j].value,
                )
                &&& post.capacity_spec() == pre.capacity_spec()
                &&& remaining_pairs(post.table_spec(), i, j + 1) == remaining_pairs(
                    pre.table_spec(),
                    i,
                    j + 1,
                )
            },
{
    assert forall|post: HashMap<K, V>|
        {
            &&& (#[trigger] post.table_spec()).len() == pre.table_spec().len()
            &&& (forall|x: int|
                0 <= x < pre.table_spec().len() && x != i ==> #[trigger] post.table_spec()[x]
                    == pre.table_spec()[x])
            &&& post.table_spec()[i]@ == pre.table_spec()[i]@.update(
                j,
                Entry { key: pre.table_spec()[i]@[j].key, value: post.table_spec()[i]@[j].value },
            )
            &&& post.size_field() == pre.size_field()
            &&& same_configuration(post, pre)
        } implies {
        &&& post.well_formed()
        &&& post@ == pre@.insert(pre.table_spec()[i]@[j].key, post.table_spec()[i]@[j].value)
        &&& post.capacity_spec() == pre.capacity_spec()
        &&& remaining_pairs(post.table_spec(), i, j + 1) == remaining_pairs(
            pre.table_spec(),
            i,
            j + 1,
        )
    } by {
        lemma_value_replaced(pre, post, i, j);
        lemma_remaining_pairs_agree(post.table_spec(), pre.table_spec(), i, j + 1);
    }
}

/// Hands out the key and a writable value reference at one table slot.
fn entry_at_mut<'m, K: MapKey, V>(map: &'m mut HashMap<K, V>, i: usize, j: usize) -> (entry: Entry<
    &'m K,
    &'m mut V,
>)
    requires
        i < old(map).table_spec().len(),
        j < old(map).table_spec()[i as int]@.len(),
    ensures
        *entry.key == old(map).table_spec()[i as int]@[j as int].key,
        *entry.value == old(map).table_spec()[i as int]@[j as int].value,
        final(map).table_spec().len() == old(map).table_spec().len(),
        forall|x: int|
            0 <= x < old(map).table_spec().len() && x != i ==> #[trigger] final(map).table_spec()[x]
                == old(map).table_spec()[x],
        final(map).table_spec()[i as int]@ == old(map).table_spec()[i as int]@.update(
            j as int,
            Entry {
                key: old(map).table_spec()[i as int]@[j as int].key,
                value: *final(entry.value),
            },
        ),
        final(map).size_field() == old(map).size_field(),
        same_configuration(*final(map), *old(map)),
{
    let slot = &mut map.items[i][j];
    Entry { key: &slot.key, value: &mut slot.value }
}

impl IterMut {
    /// The pairs this cursor has yet to visit in the given map.
    pub closed spec fn remaining<K: MapKey, V>(&self, map: HashMap<K, V>) -> Seq<(K, V)> {
        remaining_pairs(map.table_spec(), self.bucket as int, self.offset as int)
    }

    /// Visits the next entry of the map: its key stays read-only, its value
    /// is handed out writable, and whatever the caller writes through it is
    /// what the map afterwards associates with that key.
    pub fn next<'m, K: MapKey, V>(&mut self, map: &'m mut HashMap<K, V>) -> (item: Option<
        Entry<&'m K, &'m mut V>,
    >)
        requires
            old(map).well_formed(),
        ensures
            match item {
                Some(entry) => {
                    &&& old(self).remaining(*old(map)).len() > 0
                    &&& *entry.key == old(self).remaining(*old(map))[0].0
                    &&& *entry.value == old(self).remaining(*old(map))[0].1
                    &&& final(map).well_formed()
                    &&& final(map)@ == old(map)@.insert(
                        old(self).remaining(*old(map))[0].0,
                        *final(entry.value),
                    )
                    &&& final(map).capacity_spec() == old(map).capacity_spec()
                    &&& same_configuration(*final(map), *old(map))
                    &&& final(self).remaining(*final(map)) == old(self).remaining(
                        *old(map),
                    ).drop_first()
                },
                None => {
                    &&& old(self).remaining(*old(map)).len() == 0
                    &&& *final(map) == *old(map)
                    &&& final(self).remaining(*final(map)).len() == 0
                },
            },
    {
        while self.bucket < map.items.len() && self.offset >= map.items[self.bucket].len()
            invariant
                *map == *old(map),
                remaining_pairs(map.table_spec(), self.bucket as int, self.offset as int) == old(
                    self,
                ).remaining(*old(map)),
            decreases map.items@.len() - self.bucket,
        {
            self.bucket = self.bucket + 1;
            self.offset = 0;
        }
        if self.bucket >= map.items.len() {
            return None;
        }
        let i = self.bucket;
        let j = self.offset;
        self.offset = j + 1;
        proof {
            assert(old(self).remaining(*old(map))[0] == (
                map.table_spec()[i as int]@[j as int].key,
                map.table_spec()[i as int]@[j as int].value,
            ));
        }
        let ghost pre = *map;
        proof {
            assert(old(self).remaining(*old(map)) == remaining_pairs(
                pre.table_spec(),
                i as int,
                j as int,
            ));
            assert(remaining_pairs(pre.table_spec(), i as int, j as int).drop_first()
                =~= remaining_pairs(pre.table_spec(), i as int, j as int + 1));
            lemma_value_replaced_all(pre, i as int, j as int);
        }
        let entry = entry_at_mut(map, i, j);
        Some(entry)
    }
}

} // verus!
