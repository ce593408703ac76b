use crate::hashmap::{
    bucket_distinct, bucket_has_key, lemma_table_globally_distinct, seq_has_pair, table_distinct,
    table_placed, tail_has_key, tail_has_pair, Entry, HashMap, MapKey,
};
use vstd::prelude::*;

verus! {

/// A consuming view: it takes the map's entries over and yields each of
/// them, with ownership, exactly once.
pub struct IntoIter<K, V> {
    entries: Vec<Entry<K, V>>,
}

impl<K: MapKey, V> HashMap<K, V> {
    /// Consumes the map, producing a one-shot traversal that owns every
    /// entry the map held.
    pub fn into_iter(self) -> (it: IntoIter<K, V>)
        requires
            self.well_formed(),
        ensures
            forall|t: int|
                0 <= t < it.remaining().len() ==> self@.contains_key(
                    (#[trigger] it.remaining()[t]).0,
                ) && self@[it.remaining()[t].0] == it.remaining()[t].1,
            forall|k: K| #[trigger]
                self@.contains_key(k) ==> exists|t: int|
                    0 <= t < it.remaining().len() && (#[trigger] it.remaining()[t]).0 == k,
            forall|t1: int, t2: int|
                0 <= t1 < t2 < it.remaining().len() ==> (#[trigger] it.remaining()[t1]).0 != (
                #[trigger] it.remaining()[t2]).0,
            it.remaining().len() == self@.len(),
    {
        proof {
            self.lemma_view_as_pairs();
        }
        let HashMap {
            items: mut items,
            size: _,
            load_factor_numerator: _,
            load_factor_denominator: _,
            dynamic_resizing: _,
        } = self;
        let ghost old_table = items@;
        let mut entries: Vec<Entry<K, V>> = Vec::new();
        let mut i: usize = 0;
        while i < items.len()
            invariant
                old_table == self.items@,
                table_placed(old_table),
                table_distinct(old_table),
                items@.len() == old_table.len(),
                i <= old_table.len(),
                forall|x: int| i <= x < old_table.len() ==> #[trigger] items@[x] == old_table[x],
                bucket_distinct(entries@),
                forall|k: K| #[trigger]
                    bucket_has_key(entries@, k) ==> !tail_has_key(old_table, i as int, k),
                forall|k: K, v: V| #[trigger] tail_has_pair(old_table, 0, k, v) <==> (seq_has_pair(
                    entries@,
                    k,
                    v,
                ) || tail_has_pair(old_table, i as int, k, v)),
            decreases old_table.len() - i,
        {
            let mut bucket: Vec<Entry<K, V>> = Vec::new();
            core::mem::swap(&mut bucket, &mut items[i]);
            let ghost whole_bucket = old_table[i as int]@;
            proof {
                lemma_table_globally_distinct(old_table);
                assert(bucket@ == whole_bucket);
                assert(bucket@ =~= whole_bucket.take(bucket@.len() as int));
                assert forall|k: K| #[trigger] bucket_has_key(entries@, k) implies !(tail_has_key(
                    old_table,
                    i + 1,
                    k,
                ) || bucket_has_key(bucket@, k)) by {
                    assert(!tail_has_key(old_table, i as int, k));
                    if bucket_has_key(bucket@, k) {
                        let y = choose|y: int|
                            0 <= y < bucket@.len() && (#[trigger] bucket@[y]).key == k;
                        assert(old_table[i as int]@[y].key == k);
                        assert(tail_has_key(old_table, i as int, k));
                        assert(false);
                    }
                    if tail_has_key(old_table, i + 1, k) {
                        let (x, y) = choose|x: int, y: int|
                            i + 1 <= x < old_table.len() && 0 <= y < old_table[x]@.len() && (
                            #[trigger] old_table[x]@[y]).key == k;
                        assert(old_table[x]@[y].key == k);
                        assert(tail_has_key(old_table, i as int, k));
                        assert(false);
                    }
                }
                assert forall|k: K, v: V| #[trigger] tail_has_pair(old_table, 0, k, v) implies (
                seq_has_pair(entries@, k, v) || tail_has_pair(old_table, i + 1, k, v)
                    || seq_has_pair(bucket@, k, v)) by {
                    if tail_has_pair(old_table, i as int, k, v) {
                        let (x, y) = choose|x: int, y: int|
                            i <= x < old_table.len() && 0 <= y < old_table[x]@.len() && (
                            #[trigger] old_table[x]@[y]).key == k && old_table[x]@[y].value == v;
                        if x == i as int {
                            assert(bucket@[y].key == k && bucket@[y].value == v);
                            assert(seq_has_pair(bucket@, k, v));
                        } else {
                            assert(tail_has_pair(old_table, i + 1, k, v));
                        }
                    }
                }
                assert forall|k: K, v: V|
                    tail_has_pair(old_table, i + 1, k, v) || seq_has_pair(bucket@, k, v) implies
                    #[trigger] tail_has_pair(old_table, i as int, k, v) by {
                    if seq_has_pair(bucket@, k, v) {
                        let y = choose|y: int|
                            0 <= y < bucket@.len() && (#[trigger] bucket@[y]).key == k
                                && bucket@[y].value == v;
                        assert(old_table[i as int]@[y].key == k);
                    }
                }
            }
            while bucket.len() > 0
                invariant
                    old_table == self.items@,
                    table_placed(old_table),
                    table_distinct(old_table),
                    items@.len() == old_table.len(),
                    i < old_table.len(),
                    whole_bucket == old_table[i as int]@,
                    bucket@.len() <= whole_bucket.len(),
                    bucket@ == whole_bucket.take(bucket@.len() as int),
                    forall|x: int| i < x < old_table.len()
                        ==> #[trigger] items@[x] == old_table[x],
                    bucket_distinct(entries@),
                    forall|k: K| #[trigger]
                        bucket_has_key(entries@, k) ==> !(tail_has_key(old_table, i + 1, k)
                            || bucket_has_key(bucket@, k)),
                    forall|k: K, v: V| #[trigger] tail_has_pair(old_table, 0, k, v) <==> (
                    seq_has_pair(entries@, k, v) || tail_has_pair(old_table, i + 1, k, v)
                        || seq_has_pair(bucket@, k, v)),
                decreases bucket@.len(),
            {
                let ghost prev_entries = entries@;
                let ghost prev_bucket = bucket@;
                let entry = bucket.pop().unwrap();
                let ghost e = entry;
                let ghost bj = bucket@.len() as int;
                entries.push(entry);
                proof {
                    lemma_table_globally_distinct(old_table);
                    assert(prev_bucket[bj] == e);
                    assert(prev_bucket[bj] == whole_bucket[bj]);
                    assert(old_table[i as int]@[bj] == e);
                    assert(entries@ == prev_entries.push(e));
                    assert(bucket@ =~= whole_bucket.take(bucket@.len() as int));
                    assert(!bucket_has_key(prev_entries, e.key)) by {
                        if bucket_has_key(prev_entries, e.key) {
                            assert(bucket_has_key(prev_bucket, e.key));
                        }
                    }
                    assert(bucket_distinct(entries@)) by {
                        assert forall|j1: int, j2: int|
                            0 <= j1 < j2 < entries@.len() implies (#[trigger] entries@[j1]).key
                            != (#[trigger] entries@[j2]).key by {
                            if j2 == entries@.len() - 1 {
                                assert(entries@[j1] == prev_entries[j1]);
                                if prev_entries[j1].key == e.key {
                                    assert(bucket_has_key(prev_entries, e.key));
                                }
                            } else {
                                assert(entries@[j1] == prev_entries[j1]);
                                assert(entries@[j2] == prev_entries[j2]);
                            }
                        }
                    }
                    assert forall|k: K| #[trigger] bucket_has_key(entries@, k) implies !(
                    tail_has_key(old_table, i + 1, k) || bucket_has_key(bucket@, k)) by {
                        let y0 = choose|y0: int|
                            0 <= y0 < entries@.len() && (#[trigger] entries@[y0]).key == k;
                        if y0 == entries@.len() - 1 {
                            // the key just moved over: it lived at (i, bj)
                            if tail_has_key(old_table, i + 1, k) {
                                let (x, y) = choose|x: int, y: int|
                                    i + 1 <= x < old_table.len() && 0 <= y < old_table[x]@.len()
                                        && (#[trigger] old_table[x]@[y]).key == k;
                                assert(old_table[x]@[y].key == old_table[i as int]@[bj].key);
                                assert(false);
                            }
                            if bucket_has_key(bucket@, k) {
                                let y = choose|y: int|
                                    0 <= y < bucket@.len() && (#[trigger] bucket@[y]).key == k;
                                assert(whole_bucket[y] == bucket@[y]);
                                assert(old_table[i as int]@[y].key
                                    == old_table[i as int]@[bj].key);
                                assert(false);
                            }
                        } else {
                            assert(entries@[y0] == prev_entries[y0]);
                            assert(bucket_has_key(prev_entries, k));
                            if bucket_has_key(bucket@, k) {
                                let y = choose|y: int|
                                    0 <= y < bucket@.len() && (#[trigger] bucket@[y]).key == k;
                                assert(prev_bucket[y] == bucket@[y]);
                                assert(bucket_has_key(prev_bucket, k));
                            }
                        }
                    }
                    assert forall|k: K, v: V| #[trigger] tail_has_pair(old_table, 0, k, v) implies (
                    seq_has_pair(entries@, k, v) || tail_has_pair(old_table, i + 1, k, v)
                        || seq_has_pair(bucket@, k, v)) by {
                        if seq_has_pair(prev_entries, k, v) {
                            let y = choose|y: int|
                                0 <= y < prev_entries.len() && (#[trigger] prev_entries[y]).key
                                    == k && prev_entries[y].value == v;
                            assert(entries@[y] == prev_entries[y]);
                            assert(seq_has_pair(entries@, k, v));
                        } else if seq_has_pair(prev_bucket, k, v) {
                            let y = choose|y: int|
                                0 <= y < prev_bucket.len() && (#[trigger] prev_bucket[y]).key == k
                                    && prev_bucket[y].value == v;
                            if y == bj {
                                assert(entries@[entries@.len() - 1] == e);
                                assert(seq_has_pair(entries@, k, v));
                            } else {
                                assert(bucket@[y] == prev_bucket[y]);
                                assert(seq_has_pair(bucket@, k, v));
                            }
                        }
                    }
                    assert forall|k: K, v: V|
                        seq_has_pair(entries@, k, v) || tail_has_pair(old_table, i + 1, k, v)
                            || seq_has_pair(bucket@, k, v) implies #[trigger] tail_has_pair(
                        old_table,
                        0,
                        k,
                        v,
                    ) by {
                        if seq_has_pair(entries@, k, v) {
                            let y = choose|y: int|
                                0 <= y < entries@.len() && (#[trigger] entries@[y]).key == k
                                    && entries@[y].value == v;
                            if y == entries@.len() - 1 {
                                assert(old_table[i as int]@[bj].key == k);
                                assert(tail_has_pair(old_table, 0, k, v));
                            } else {
                                assert(entries@[y] == prev_entries[y]);
                                assert(seq_has_pair(prev_entries, k, v));
                            }
                        } else if seq_has_pair(bucket@, k, v) {
                            let y = choose|y: int|
                                0 <= y < bucket@.len() && (#[trigger] bucket@[y]).key == k
                                    && bucket@[y].value == v;
                            assert(prev_bucket[y] == bucket@[y]);
                            assert(seq_has_pair(prev_bucket, k, v));
                        }
                    }
                }
            }
            i += 1;
            proof {
                assert(bucket@.len() == 0);
                assert forall|k: K, v: V| #[trigger] tail_has_pair(old_table, 0, k, v) implies (
                seq_has_pair(entries@, k, v) || tail_has_pair(old_table, i as int, k, v)) by {
                    assert(!seq_has_pair(bucket@, k, v));
                }
                assert forall|k: K| #[trigger] bucket_has_key(entries@, k) implies !tail_has_key(
                    old_table,
                    i as int,
                    k,
                ) by {
                    assert(!(tail_has_key(old_table, i as int, k) || bucket_has_key(bucket@, k)));
                }
            }
        }
        let it = IntoIter { entries };
        proof {
            assert forall|t: int| 0 <= t < it.remaining().len() implies self@.contains_key(
                (#[trigger] it.remaining()[t]).0,
            ) && self@[it.remaining()[t].0] == it.remaining()[t].1 by {
                let e = it.entries@[t];
                assert(it.remaining()[t] == (e.key, e.value));
                assert(seq_has_pair(it.entries@, e.key, e.value));
                assert(tail_has_pair(old_table, 0, e.key, e.value));
            }
            assert forall|k: K| #[trigger] self@.contains_key(k) implies exists|t: int|
                0 <= t < it.remaining().len() && (#[trigger] it.remaining()[t]).0 == k by {
                let v = self@[k];
                assert(tail_has_pair(old_table, 0, k, v));
                assert(seq_has_pair(it.entries@, k, v));
                let t = choose|t: int|
                    0 <= t < it.entries@.len() && (#[trigger] it.entries@[t]).key == k
                        && it.entries@[t].value == v;
                assert(0 <= t < it.remaining().len() && (it.remaining()[t]).0 == k);
            }
            assert forall|t1: int, t2: int|
                0 <= t1 < t2 < it.remaining().len() implies (#[trigger] it.remaining()[t1]).0 != (
            #[trigger] it.remaining()[t2]).0 by {
                assert(it.remaining()[t1] == (it.entries@[t1].key, it.entries@[t1].value));
                assert(it.remaining()[t2] == (it.entries@[t2].key, it.entries@[t2].value));
                assert(it.entries@[t1].key != it.entries@[t2].key);
            }
            crate::hashmap::lemma_covering_distinct_pairs_len(it.remaining(), self@);
        }
        it
    }
}

impl<K, V> IntoIter<K, V> {
    /// The owned pairs this view has yet to yield.
    pub closed spec fn remaining(&self) -> Seq<(K, V)> {
        self.entries@.map_values(|e: Entry<K, V>| (e.key, e.value))
    }

    /// Yields the next owned entry, or nothing once the map is exhausted.
    pub fn next(&mut self) -> (item: Option<Entry<K, V>>)
        ensures
            match item {
                Some(entry) => {
                    &&& old(self).remaining().len() > 0
                    &&& (entry.key, entry.value) == old(self).remaining().last()
                    &&& final(self).remaining() == old(self).remaining().drop_last()
                },
                None => {
                    &&& old(self).remaining().len() == 0
                    &&& final(self).remaining() == old(self).remaining()
                },
            },
    {
        let item = self.entries.pop();
        proof {
            if old(self).entries@.len() > 0 {
                assert(self.remaining() =~= old(self).remaining().drop_last());
            } else {
                assert(self.remaining() =~= old(self).remaining());
            }
        }
        match item {
            Some(entry) => Some(entry),
            None => None,
        }
    }
}

} // verus!
