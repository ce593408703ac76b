use crate::hashmap::{table_distinct, table_placed, Entry, HashMap, MapKey};
use vstd::prelude::*;

verus! {

/// The key/value pairs a traversal still visits when it stands at bucket
/// `i`, slot `j`: the rest of bucket `i`, then every later bucket.
pub(crate) open spec fn remaining_pairs<K, V>(
    table: Seq<Vec<Entry<K, V>>>,
    i: int,
    j: int,
) -> Seq<(K, V)>
    decreases table.len() - i, table[i]@.len() - j,
{
    if 0 <= i < table.len() {
        if 0 <= j < table[i]@.len() {
            seq![(table[i]@[j].key, table[i]@[j].value)] + remaining_pairs(table, i, j + 1)
        } else {
            remaining_pairs(table, i + 1, 0)
        }
    } else {
        Seq::empty()
    }
}

/// The `t`-th yielded pair is stored at some table position not yet passed.
pub(crate) open spec fn pair_from_table<K, V>(
    table: Seq<Vec<Entry<K, V>>>,
    i: int,
    j: int,
    t: int,
) -> bool {
    exists|x: int, y: int|
        0 <= x < table.len() && 0 <= y < table[x]@.len() && (x > i || (x == i && y >= j)) && (
        #[trigger] table[x]@[y]).key == remaining_pairs(table, i, j)[t].0 && table[x]@[y].value
            == remaining_pairs(table, i, j)[t].1
}

/// The entry at table position (x, y) appears among the pairs a traversal
/// from (i, j) yields.
pub(crate) open spec fn pair_is_yielded<K, V>(
    table: Seq<Vec<Entry<K, V>>>,
    i: int,
    j: int,
    x: int,
    y: int,
) -> bool {
    exists|t: int|
        0 <= t < remaining_pairs(table, i, j).len() && table[x]@[y].key == (
        #[trigger] remaining_pairs(table, i, j)[t]).0 && table[x]@[y].value == remaining_pairs(
            table,
            i,
            j,
        )[t].1
}

/// What a traversal from (i, j) yields: exactly the entries stored at the
/// positions not yet passed, with no key repeated.
pub(crate) proof fn lemma_remaining_pairs_positions<K: MapKey, V>(
    table: Seq<Vec<Entry<K, V>>>,
    i: int,
    j: int,
)
    requires
        table_placed(table),
        table_distinct(table),
        0 <= i,
        0 <= j,
    ensures
        forall|t: int|
            0 <= t < remaining_pairs(table, i, j).len() ==> #[trigger] pair_from_table(
                table,
                i,
                j,
                t,
            ),
        forall|x: int, y: int|
            i <= x < table.len() && 0 <= y < table[x]@.len() && (x > i || y >= j) ==> #[trigger]
                pair_is_yielded(table, i, j, x, y),
        forall|t1: int, t2: int|
            0 <= t1 < t2 < remaining_pairs(table, i, j).len() ==> (#[trigger] remaining_pairs(
                table,
                i,
                j,
            )[t1]).0 != (#[trigger] remaining_pairs(table, i, j)[t2]).0,
    decreases table.len() - i, table[i]@.len() - j,
{
    crate::hashmap::lemma_table_globally_distinct(table);
    let pairs = remaining_pairs(table, i, j);
    if 0 <= i < table.len() {
        if 0 <= j < table[i]@.len() {
            let rest = remaining_pairs(table, i, j + 1);
            lemma_remaining_pairs_positions(table, i, j + 1);
            assert(pairs[0] == (table[i]@[j].key, table[i]@[j].value));
            assert(forall|t: int| 1 <= t < pairs.len() ==> pairs[t] == rest[t - 1]);
            assert forall|t: int|
                0 <= t < pairs.len() implies #[trigger] pair_from_table(table, i, j, t) by {
                if t == 0 {
                    assert((#[trigger] table[i]@[j]).key == pairs[0].0 && table[i]@[j].value
                        == pairs[0].1);
                } else {
                    assert(pair_from_table(table, i, j + 1, t - 1));
                    let (x, y) = choose|x: int, y: int|
                        0 <= x < table.len() && 0 <= y < table[x]@.len() && (x > i || (x == i && y
                            >= j + 1)) && (#[trigger] table[x]@[y]).key == rest[t - 1].0
                            && table[x]@[y].value == rest[t - 1].1;
                    assert((#[trigger] table[x]@[y]).key == pairs[t].0 && table[x]@[y].value
                        == pairs[t].1);
                }
            }
            assert forall|x: int, y: int|
                i <= x < table.len() && 0 <= y < table[x]@.len() && (x > i || y >= j) implies
                #[trigger] pair_is_yielded(table, i, j, x, y) by {
                if x == i && y == j {
                    assert((#[trigger] pairs[0]).0 == table[x]@[y].key && pairs[0].1
                        == table[x]@[y].value);
                } else {
                    assert(pair_is_yielded(table, i, j + 1, x, y));
                    let t = choose|t: int|
                        0 <= t < rest.len() && table[x]@[y].key == (#[trigger] rest[t]).0
                            && table[x]@[y].value == rest[t].1;
                    assert(table[x]@[y].key == (#[trigger] pairs[t + 1]).0 && table[x]@[y].value
                        == pairs[t + 1].1);
                }
            }
            // no key recurs: the head differs from every later pair, and the
            // rest is distinct by induction
            assert forall|t1: int, t2: int|
                0 <= t1 < t2 < pairs.len() implies (#[trigger] pairs[t1]).0 != (
            #[trigger] pairs[t2]).0 by {
                if t1 == 0 {
                    assert(pairs[t2] == rest[t2 - 1]);
                    assert(pair_from_table(table, i, j + 1, t2 - 1));
                    let (x, y) = choose|x: int, y: int|
                        0 <= x < table.len() && 0 <= y < table[x]@.len() && (x > i || (x == i && y
                            >= j + 1)) && (#[trigger] table[x]@[y]).key == rest[t2 - 1].0
                            && table[x]@[y].value == rest[t2 - 1].1;
                    assert(table[i]@[j].key != table[x]@[y].key);
                } else {
                    assert(pairs[t1] == rest[t1 - 1] && pairs[t2] == rest[t2 - 1]);
                    assert(rest[t1 - 1].0 != rest[t2 - 1].0);
                }
            }
        } else {
            lemma_remaining_pairs_positions(table, i + 1, 0);
            let rest = remaining_pairs(table, i + 1, 0);
            assert(pairs == rest);
            assert forall|t: int|
                0 <= t < pairs.len() implies #[trigger] pair_from_table(table, i, j, t) by {
                assert(pair_from_table(table, i + 1, 0, t));
                let (x, y) = choose|x: int, y: int|
                    0 <= x < table.len() && 0 <= y < table[x]@.len() && (x > i + 1 || (x == i + 1
                        && y >= 0)) && (#[trigger] table[x]@[y]).key == rest[t].0
                        && table[x]@[y].value == rest[t].1;
                assert((#[trigger] table[x]@[y]).key == pairs[t].0 && table[x]@[y].value
                    == pairs[t].1);
            }
            assert forall|x: int, y: int|
                i <= x < table.len() && 0 <= y < table[x]@.len() && (x > i || y >= j) implies
                #[trigger] pair_is_yielded(table, i, j, x, y) by {
                assert(x > i);
                assert(pair_is_yielded(table, i + 1, 0, x, y));
                let t = choose|t: int|
                    0 <= t < rest.len() && table[x]@[y].key == (#[trigger] rest[t]).0
                        && table[x]@[y].value == rest[t].1;
                assert(table[x]@[y].key == (#[trigger] pairs[t]).0 && table[x]@[y].value
                    == pairs[t].1);
            }
        }
    }
}

/// A shared view over a map's entries: a one-shot traversal yielding a
/// read-only reference to each key and value exactly once.
pub struct Iter<'a, K: MapKey, V> {
    table: &'a Vec<Vec<Entry<K, V>>>,
    bucket: usize,
    offset: usize,
}

impl<K: MapKey, V> HashMap<K, V> {
    /// Opens a shared view over every entry the map holds right now.
    pub fn iter(&self) -> (it: Iter<K, V>)
        requires
            self.well_formed(),
        ensures
            forall|t: int|
                0 <= t < it.remaining().len() ==> self@.contains_key(
                    (#[trigger] it.remaining()[t]).0,
                ) && self@[it.remaining()[t].0] == it.remaining()[t].1,
            forall|k: K| #[trigger]
                self@.contains_key(k) ==> exists|t: int|
                    0 <= t < it.remaining().len() && (#[trigger] it.remaining()[t]).0 == k,
            forall|t1: int, t2: int|
                0 <= t1 < t2 < it.remaining().len() ==> (#[trigger] it.remaining()[t1]).0 != (
                #[trigger] it.remaining()[t2]).0,
            it.remaining().len() == self@.len(),
    {
        let it = Iter { table: &self.items, bucket: 0, offset: 0 };
        proof {
            lemma_remaining_pairs_positions(self.items@, 0, 0);
            self.lemma_view_as_pairs();
            let pairs = remaining_pairs(self.items@, 0, 0);
            assert forall|t: int| 0 <= t < pairs.len() implies self@.contains_key(
                (#[trigger] pairs[t]).0,
            ) && self@[pairs[t].0] == pairs[t].1 by {
                assert(pair_from_table(self.items@, 0, 0, t));
                let (x, y) = choose|x: int, y: int|
                    0 <= x < self.items@.len() && 0 <= y < self.items@[x]@.len() && (x > 0 || (x
                        == 0 && y >= 0)) && (#[trigger] self.items@[x]@[y]).key == pairs[t].0
                        && self.items@[x]@[y].value == pairs[t].1;
                assert(crate::hashmap::tail_has_pair(self.items@, 0, pairs[t].0, pairs[t].1));
            }
            assert(it.remaining() == pairs);
            assert forall|k: K| #[trigger] self@.contains_key(k) implies exists|t: int|
                0 <= t < it.remaining().len() && (#[trigger] it.remaining()[t]).0 == k by {
                let v = self@[k];
                assert(crate::hashmap::tail_has_pair(self.items@, 0, k, v));
                let (x, y) = choose|x: int, y: int|
                    0 <= x < self.items@.len() && 0 <= y < self.items@[x]@.len() && (
                    #[trigger] self.items@[x]@[y]).key == k && self.items@[x]@[y].value == v;
                assert(pair_is_yielded(self.items@, 0, 0, x, y));
                let t = choose|t: int|
                    0 <= t < pairs.len() && self.items@[x]@[y].key == (#[trigger] pairs[t]).0
                        && self.items@[x]@[y].value == pairs[t].1;
                assert(0 <= t < it.remaining().len() && (it.remaining()[t]).0 == k);
            }
            crate::hashmap::lemma_covering_distinct_pairs_len(pairs, self@);
        }
        it
    }
}

impl<'a, K: MapKey, V> Iter<'a, K, V> {
    /// The pairs this view has yet to yield, in traversal order.
    pub closed spec fn remaining(&self) -> Seq<(K, V)> {
        remaining_pairs(self.table@, self.bucket as int, self.offset as int)
    }

    /// Yields the next entry, or nothing once every entry has been seen.
    pub fn next(&mut self) -> (item: Option<Entry<&'a K, &'a V>>)
        ensures
            match item {
                Some(entry) => {
                    &&& old(self).remaining().len() > 0
                    &&& *entry.key == old(self).remaining()[0].0
                    &&& *entry.value == old(self).remaining()[0].1
                    &&& final(self).remaining() == old(self).remaining().drop_first()
                },
                None => {
                    &&& old(self).remaining().len() == 0
                    &&& final(self).remaining() == old(self).remaining()
                },
            },
    {
        let table: &'a Vec<Vec<Entry<K, V>>> = self.table;
        while self.bucket < table.len() && self.offset >= table[self.bucket].len()
            invariant
                self.table == table,
                remaining_pairs(table@, self.bucket as int, self.offset as int) == old(
                    self,
                ).remaining(),
            decreases table@.len() - self.bucket,
        {
            self.bucket = self.bucket + 1;
            self.offset = 0;
        }
        if self.bucket >= table.len() {
            return None;
        }
        let entry = &table[self.bucket][self.offset];
        proof {
            assert(old(self).remaining()[0] == (entry.key, entry.value));
        }
        self.offset = self.offset + 1;
        Some(Entry { key: &entry.key, value: &entry.value })
    }
}

} // verus!
