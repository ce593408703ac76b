pub mod into_iter;
pub mod iter;
pub mod iter_mut;
pub mod options;

use crate::hashmap::options::ValidatedOptions;
use vstd::prelude::*;

verus! {

/// A key usable by [`HashMap`]: it carries a deterministic 64-bit digest
/// and a decidable equality that agrees with spec-level equality, so equal
/// keys always produce equal digests.
pub trait MapKey: Sized {
    /// The digest this key hashes to, as a pure function of the key.
    spec fn hash_spec(&self) -> u64;

    /// Computes the key's digest.
    fn hash_code(&self) -> (digest: u64)
        ensures
            digest == self.hash_spec(),
    ;

    /// Decides whether two keys are equal.
    fn key_eq(&self, other: &Self) -> (eq: bool)
        ensures
            eq == (self == other),
    ;
}

impl MapKey for u64 {
    open spec fn hash_spec(&self) -> u64 {
        *self
    }

    fn hash_code(&self) -> u64 {
        *self
    }

    fn key_eq(&self, other: &Self) -> bool {
        *self == *other
    }
}

impl MapKey for u32 {
    open spec fn hash_spec(&self) -> u64 {
        *self as u64
    }

    fn hash_code(&self) -> u64 {
        *self as u64
    }

    fn key_eq(&self, other: &Self) -> bool {
        *self == *other
    }
}

impl MapKey for usize {
    open spec fn hash_spec(&self) -> u64 {
        *self as u64
    }

    fn hash_code(&self) -> u64 {
        *self as u64
    }

    fn key_eq(&self, other: &Self) -> bool {
        *self == *other
    }
}

impl MapKey for i32 {
    open spec fn hash_spec(&self) -> u64 {
        *self as u64
    }

    fn hash_code(&self) -> u64 {
        *self as u64
    }

    fn key_eq(&self, other: &Self) -> bool {
        *self == *other
    }
}

impl MapKey for i64 {
    open spec fn hash_spec(&self) -> u64 {
        *self as u64
    }

    fn hash_code(&self) -> u64 {
        *self as u64
    }

    fn key_eq(&self, other: &Self) -> bool {
        *self == *other
    }
}

/// The bucket slot a digest selects in a table of the given capacity.
pub open spec fn bucket_index_of(digest: u64, capacity: int) -> int {
    digest as int % capacity
}

/// Computes a key's digest.
pub fn hash<K: MapKey>(value: &K) -> (digest: u64)
    ensures
        digest == value.hash_spec(),
{
    value.hash_code()
}

/// Maps a key to its bucket slot under the given capacity.
pub fn find_key_index<K: MapKey>(key: &K, capacity: usize) -> (index: usize)
    requires
        capacity >= 1,
    ensures
        index as int == bucket_index_of(key.hash_spec(), capacity as int),
        index < capacity,
{
    let digest = hash(key);
    (digest % (capacity as u64)) as usize
}

/// A key/value pair held by one bucket of a [`HashMap`].
pub struct Entry<K, V> {
    pub key: K,
    pub value: V,
}

/// A hash map with separate chaining: every key is stored in the bucket its
/// digest selects, and colliding keys coexist within one bucket.
pub struct HashMap<K: MapKey, V> {
    items: Vec<Vec<Entry<K, V>>>,
    size: usize,
    load_factor_numerator: u64,
    load_factor_denominator: u64,
    dynamic_resizing: bool,
}

pub(crate) open spec fn bucket_has_key<K, V>(bucket: Seq<Entry<K, V>>, key: K) -> bool {
    exists|j: int| 0 <= j < bucket.len() && bucket[j].key == key
}

pub(crate) open spec fn bucket_key_index<K, V>(bucket: Seq<Entry<K, V>>, key: K) -> int {
    choose|j: int| 0 <= j < bucket.len() && bucket[j].key == key
}

pub(crate) open spec fn bucket_value_of<K, V>(bucket: Seq<Entry<K, V>>, key: K) -> V {
    bucket[bucket_key_index(bucket, key)].value
}

/// No key occurs twice within the bucket.
pub(crate) open spec fn bucket_distinct<K, V>(bucket: Seq<Entry<K, V>>) -> bool {
    forall|j1: int, j2: int|
        0 <= j1 < j2 < bucket.len() ==> (#[trigger] bucket[j1]).key != (#[trigger] bucket[j2]).key
}

/// Every entry sits in the bucket its digest selects.
pub(crate) open spec fn table_placed<K: MapKey, V>(table: Seq<Vec<Entry<K, V>>>) -> bool {
    forall|i: int, j: int|
        0 <= i < table.len() && 0 <= j < table[i]@.len() ==> bucket_index_of(
            (#[trigger] table[i]@[j]).key.hash_spec(),
            table.len() as int,
        ) == i
}

pub(crate) open spec fn table_distinct<K, V>(table: Seq<Vec<Entry<K, V>>>) -> bool {
    forall|i: int| 0 <= i < table.len() ==> bucket_distinct((#[trigger] table[i])@)
}

/// When a bucket holds the key, the bucket's association for it is the
/// entry found at any witnessing position.
proof fn lemma_bucket_found<K, V>(bucket: Seq<Entry<K, V>>, key: K, j: int)
    requires
        bucket_distinct(bucket),
        0 <= j < bucket.len(),
        bucket[j].key == key,
    ensures
        bucket_has_key(bucket, key),
        bucket_key_index(bucket, key) == j,
        bucket_value_of(bucket, key) == bucket[j].value,
{
    assert(bucket_has_key(bucket, key));
    let j2 = bucket_key_index(bucket, key);
    if j2 != j {
        assert(bucket[j].key != bucket[j2].key);
    }
}

impl<K: MapKey, V> View for HashMap<K, V> {
    type V = Map<K, V>;

    /// The associations the map holds, looked up through each key's bucket.
    closed spec fn view(&self) -> Map<K, V> {
        Map::new(
            |k: K| bucket_has_key(self.bucket_for(k), k),
            |k: K| bucket_value_of(self.bucket_for(k), k),
        )
    }
}

impl<K: MapKey, V> HashMap<K, V> {
    /// The number of buckets in the backing table.
    pub closed spec fn capacity_spec(&self) -> int {
        self.items@.len() as int
    }

    pub closed spec fn load_factor_numerator_spec(&self) -> int {
        self.load_factor_numerator as int
    }

    pub closed spec fn load_factor_denominator_spec(&self) -> int {
        self.load_factor_denominator as int
    }

    pub closed spec fn dynamic_resizing_spec(&self) -> bool {
        self.dynamic_resizing
    }

    pub(crate) closed spec fn size_field(&self) -> int {
        self.size as int
    }

    spec fn bucket_for(&self, key: K) -> Seq<Entry<K, V>> {
        self.items@[bucket_index_of(key.hash_spec(), self.items@.len() as int)]@
    }

    /// The internal consistency every operation preserves: at least one
    /// bucket, entries placed by their digests, no duplicated key, and the
    /// size counter equal to the number of live entries.
    pub closed spec fn well_formed(&self) -> bool {
        &&& self.items@.len() >= 1
        &&& table_placed(self.items@)
        &&& table_distinct(self.items@)
        &&& self@.dom().finite()
        &&& self.size as int == self@.len() as int
        &&& self.load_factor_numerator >= 1
        &&& self.load_factor_denominator >= 1
    }

    fn create_backing_vec(capacity: usize) -> (table: Vec<Vec<Entry<K, V>>>)
        ensures
            table@.len() == capacity,
            forall|i: int| 0 <= i < capacity ==> (#[trigger] table@[i])@.len() == 0,
    {
        let mut table: Vec<Vec<Entry<K, V>>> = Vec::new();
        while table.len() < capacity
            invariant
                table@.len() <= capacity,
                forall|i: int| 0 <= i < table@.len() ==> (#[trigger] table@[i])@.len() == 0,
            decreases capacity - table@.len(),
        {
            table.push(Vec::new());
        }
        table
    }

    /// Creates a map with the default configuration: 16 buckets, a load
    /// factor of 3/4, and automatic growth enabled.
    pub fn new() -> (map: Self)
        ensures
            map.well_formed(),
            map@ == Map::<K, V>::empty(),
            map.capacity_spec() == 16,
            map.load_factor_numerator_spec() == 3,
            map.load_factor_denominator_spec() == 4,
            map.dynamic_resizing_spec(),
    {
        HashMap::with_capacity(16)
    }

    /// Creates a map with the given number of buckets and the default
    /// growth policy.
    pub fn with_capacity(capacity: usize) -> (map: Self)
        requires
            capacity >= 1,
        ensures
            map.well_formed(),
            map@ == Map::<K, V>::empty(),
            map.capacity_spec() == capacity as int,
            map.load_factor_numerator_spec() == 3,
            map.load_factor_denominator_spec() == 4,
            map.dynamic_resizing_spec(),
    {
        let table = Self::create_backing_vec(capacity);
        let map = HashMap {
            items: table,
            size: 0,
            load_factor_numerator: 3,
            load_factor_denominator: 4,
            dynamic_resizing: true,
        };
        proof {
            assert(map@ =~= Map::<K, V>::empty());
            assert(map@.dom() =~= Set::<K>::empty());
        }
        map
    }

    /// Creates a map from a validated configuration.
    pub fn with_configuration(config: ValidatedOptions) -> (map: Self)
        requires
            config.valid_spec(),
        ensures
            map.well_formed(),
            map@ == Map::<K, V>::empty(),
            map.capacity_spec() == config.initial_capacity_spec(),
            map.load_factor_numerator_spec() == config.load_factor_spec().numerator as int,
            map.load_factor_denominator_spec() == config.load_factor_spec().denominator as int,
            map.dynamic_resizing_spec() == config.dynamic_resizing_spec(),
    {
        let table = Self::create_backing_vec(config.initial_capacity());
        let ratio = config.load_factor();
        let map = HashMap {
            items: table,
            size: 0,
            load_factor_numerator: ratio.numerator,
            load_factor_denominator: ratio.denominator,
            dynamic_resizing: config.dynamic_resizing(),
        };
        proof {
            assert(map@ =~= Map::<K, V>::empty());
            assert(map@.dom() =~= Set::<K>::empty());
        }
        map
    }

    /// The count of live entries.
    pub fn size(&self) -> (count: usize)
        requires
            self.well_formed(),
        ensures
            count as int == self@.len() as int,
    {
        self.size
    }

    /// The current number of buckets.
    pub fn capacity(&self) -> (count: usize)
        requires
            self.well_formed(),
        ensures
            count as int == self.capacity_spec(),
    {
        self.items.len()
    }

    /// Looks a key up, returning a reference to its value when present.
    pub fn get(&self, key: &K) -> (result: Option<&V>)
        requires
            self.well_formed(),
        ensures
            match result {
                Some(value) => self@.contains_key(*key) && *value == self@[*key],
                None => !self@.contains_key(*key),
            },
    {
        let index = find_key_index(key, self.items.len());
        let bucket = &self.items[index];
        let ghost bseq = bucket@;
        let mut j: usize = 0;
        while j < bucket.len()
            invariant
                self.well_formed(),
                index as int == bucket_index_of(key.hash_spec(), self.items@.len() as int),
                index < self.items@.len(),
                bseq == bucket@,
                bseq == self.items@[index as int]@,
                j <= bseq.len(),
                forall|t: int| 0 <= t < j ==> (#[trigger] bseq[t]).key != *key,
            decreases bseq.len() - j,
        {
            if bucket[j].key.key_eq(key) {
                proof {
                    lemma_bucket_found(bseq, *key, j as int);
                }
                return Some(&bucket[j].value);
            }
            j += 1;
        }
        proof {
            assert(!bucket_has_key(bseq, *key));
        }
        None
    }

    /// The map's view holds a key exactly when some bucket holds it, and
    /// associates to it the value stored beside it.
    proof fn lemma_view_as_pairs(&self)
        requires
            self.items@.len() >= 1,
            table_placed(self.items@),
            table_distinct(self.items@),
        ensures
            forall|k: K| #[trigger] self@.contains_key(k) <==> tail_has_key(self.items@, 0, k),
            forall|k: K, v: V| #[trigger]
                tail_has_pair(self.items@, 0, k, v) <==> (self@.contains_key(k) && self@[k] == v),
    {
        let t = self.items@;
        assert forall|k: K| #[trigger] self@.contains_key(k) implies tail_has_key(t, 0, k) by {
            let ki = bucket_index_of(k.hash_spec(), t.len() as int);
            let j = bucket_key_index(self.bucket_for(k), k);
            assert(t[ki]@[j].key == k);
        }
        assert forall|k: K| tail_has_key(t, 0, k) implies self@.contains_key(k) by {
            let (i, j) = choose|i: int, j: int|
                0 <= i < t.len() && 0 <= j < t[i]@.len() && (#[trigger] t[i]@[j]).key == k;
            assert(bucket_index_of(k.hash_spec(), t.len() as int) == i);
            assert(bucket_has_key(self.bucket_for(k), k));
        }
        assert forall|k: K, v: V| #[trigger] tail_has_pair(t, 0, k, v) implies self@.contains_key(k)
            && self@[k] == v by {
            let (i, j) = choose|i: int, j: int|
                0 <= i < t.len() && 0 <= j < t[i]@.len() && (#[trigger] t[i]@[j]).key == k
                    && t[i]@[j].value == v;
            assert(bucket_index_of(k.hash_spec(), t.len() as int) == i);
            lemma_bucket_found(t[i]@, k, j);
        }
        assert forall|k: K, v: V| self@.contains_key(k) && self@[k] == v implies #[trigger]
            tail_has_pair(t, 0, k, v) by {
            let ki = bucket_index_of(k.hash_spec(), t.len() as int);
            let j = bucket_key_index(self.bucket_for(k), k);
            assert(t[ki]@[j].key == k && t[ki]@[j].value == v);
        }
    }

    /// Removes a key's entry, returning its value when one was present.
    pub fn pop(&mut self, key: &K) -> (removed: Option<V>)
        requires
            old(self).well_formed(),
        ensures
            final(self).well_formed(),
            final(self)@ == old(self)@.remove(*key),
            removed == (if old(self)@.contains_key(*key) {
                Some(old(self)@[*key])
            } else {
                None::<V>
            }),
            final(self).capacity_spec() == old(self).capacity_spec(),
            same_configuration(*final(self), *old(self)),
    {
        let index = find_key_index(key, self.items.len());
        let ghost bseq = self.items@[index as int]@;
        let mut j: usize = 0;
        let bucket_len = self.items[index].len();
        while j < bucket_len
            invariant
                self == old(self),
                self.well_formed(),
                index as int == bucket_index_of(key.hash_spec(), self.items@.len() as int),
                index < self.items@.len(),
                bseq == self.items@[index as int]@,
                bucket_len == bseq.len(),
                j <= bseq.len(),
                forall|t: int| 0 <= t < j ==> (#[trigger] bseq[t]).key != *key,
            decreases bseq.len() - j,
        {
            if self.items[index][j].key.key_eq(key) {
                proof {
                    lemma_bucket_found(bseq, *key, j as int);
                    assert(old(self)@.dom().contains(*key));
                    assert(old(self)@.dom().remove(*key).len() + 1 == old(self)@.dom().len());
                }
                let entry = self.items[index].swap_remove(j);
                self.size = self.size - 1;
                proof {
                    let nb = self.items@[index as int]@;
                    assert(forall|x: int|
                        0 <= x < nb.len() ==> nb[x] == (if x == j {
                            bseq[bseq.len() - 1]
                        } else {
                            bseq[x]
                        }));
                    assert(bucket_distinct(nb));
                    assert(table_placed(self.items@));
                    assert(table_distinct(self.items@));
                    assert forall|k: K| #[trigger] self@.contains_key(k)
                        implies old(self)@.remove(*key).contains_key(k) && self@[k] == old(
                        self,
                    )@.remove(*key)[k] by {
                        let ki = bucket_index_of(k.hash_spec(), self.items@.len() as int);
                        let kb = self.bucket_for(k);
                        let t = bucket_key_index(kb, k);
                        lemma_bucket_found(kb, k, t);
                        if ki == index {
                            let ot: int = if t == j as int { bseq.len() - 1 } else { t };
                            lemma_bucket_found(bseq, k, ot);
                        } else {
                            assert(old(self).bucket_for(k) == kb);
                        }
                    }
                    assert forall|k: K| #[trigger] old(self)@.remove(*key).contains_key(k)
                        implies self@.contains_key(k) by {
                        let ki = bucket_index_of(k.hash_spec(), self.items@.len() as int);
                        let kb = old(self).bucket_for(k);
                        let t = bucket_key_index(kb, k);
                        lemma_bucket_found(kb, k, t);
                        if ki == index {
                            assert(k != *key);
                            assert(t != j);
                            let nt: int = if t == bseq.len() - 1 { j as int } else { t };
                            assert(nb[nt].key == k);
                        }
                    }
                    assert(self@ =~= old(self)@.remove(*key));
                    assert(self@.dom() =~= old(self)@.dom().remove(*key));
                }
                return Some(entry.value);
            }
            j += 1;
        }
        proof {
            assert(!bucket_has_key(bseq, *key));
            assert(!old(self)@.contains_key(*key));
            assert(self@ =~= old(self)@.remove(*key));
        }
        None
    }

    /// Whether the map has reached its growth threshold.
    fn exceeds_threshold(&self) -> (met: bool)
        ensures
            met == meets_threshold(
                self.size as int,
                self.capacity_spec(),
                self.load_factor_numerator_spec(),
                self.load_factor_denominator_spec(),
            ),
    {
        let bucket_count = self.items.len();
        proof {
            assert((self.size as int) * (self.load_factor_denominator as int) <= (u64::MAX as int)
                * (u64::MAX as int)) by (nonlinear_arith)
                requires
                    self.size <= u64::MAX,
                    self.load_factor_denominator <= u64::MAX,
            ;
            assert((bucket_count as int) * (self.load_factor_numerator as int) <= (u64::MAX
                as int) * (u64::MAX as int)) by (nonlinear_arith)
                requires
                    bucket_count <= u64::MAX,
                    self.load_factor_numerator <= u64::MAX,
            ;
            assert((u64::MAX as int) * (u64::MAX as int) < u128::MAX as int);
        }
        let scaled_size: u128 = (self.size as u128) * (self.load_factor_denominator as u128);
        let scaled_capacity: u128 = (bucket_count as u128) * (self.load_factor_numerator as u128);
        scaled_size >= scaled_capacity
    }

    /// Inserts a value for a key. An existing entry is overwritten in place
    /// and its value returned; a fresh key appends a new entry. Afterwards,
    /// when dynamic resizing is on and the load factor is reached, the
    /// table doubles its capacity.
    pub fn put(&mut self, key: K, value: V) -> (previous: Option<V>)
        requires
            old(self).well_formed(),
            old(self)@.len() < usize::MAX as int,
        ensures
            final(self).well_formed(),
            final(self)@ == old(self)@.insert(key, value),
            previous == (if old(self)@.contains_key(key) {
                Some(old(self)@[key])
            } else {
                None::<V>
            }),
            same_configuration(*final(self), *old(self)),
            final(self).capacity_spec() == (if old(self).dynamic_resizing_spec()
                && meets_threshold(
                old(self)@.insert(key, value).len() as int,
                old(self).capacity_spec(),
                old(self).load_factor_numerator_spec(),
                old(self).load_factor_denominator_spec(),
            ) && 2 * old(self).capacity_spec() <= usize::MAX as int {
                2 * old(self).capacity_spec()
            } else {
                old(self).capacity_spec()
            }),
    {
        let index = find_key_index(&key, self.items.len());
        let ghost bseq = self.items@[index as int]@;
        let bucket_len = self.items[index].len();
        let mut j: usize = 0;
        let mut found: Option<usize> = None;
        while j < bucket_len
            invariant
                self == old(self),
                self.well_formed(),
                index as int == bucket_index_of(key.hash_spec(), self.items@.len() as int),
                index < self.items@.len(),
                bseq == self.items@[index as int]@,
                bucket_len == bseq.len(),
                j <= bseq.len(),
                match found {
                    Some(p) => p < bseq.len() && bseq[p as int].key == key,
                    None => forall|t: int| 0 <= t < j ==> (#[trigger] bseq[t]).key != key,
                },
            decreases bseq.len() - j,
        {
            if found.is_none() && self.items[index][j].key.key_eq(&key) {
                found = Some(j);
            }
            j += 1;
        }
        let previous: Option<V> = match found {
            Some(p) => {
                proof {
                    lemma_bucket_found(bseq, key, p as int);
                }
                let prior = self.items[index].swap_remove(p);
                self.items[index].push(Entry { key, value });
                proof {
                    let nb = self.items@[index as int]@;
                    let last = nb.len() - 1;
                    assert(nb.len() == bseq.len());
                    assert(forall|x: int|
                        0 <= x < nb.len() ==> nb[x] == (if x == last {
                            Entry { key, value }
                        } else if x == p {
                            bseq[bseq.len() - 1]
                        } else {
                            bseq[x]
                        }));
                    assert(bucket_distinct(nb));
                    assert(table_placed(self.items@));
                    assert(table_distinct(self.items@));
                    lemma_bucket_found(nb, key, last);
                    assert forall|k: K| #[trigger] self@.contains_key(k)
                        implies old(self)@.insert(key, value).contains_key(k) && self@[k] == old(
                        self,
                    )@.insert(key, value)[k] by {
                        let ki = bucket_index_of(k.hash_spec(), self.items@.len() as int);
                        let kb = self.bucket_for(k);
                        let t = bucket_key_index(kb, k);
                        lemma_bucket_found(kb, k, t);
                        if k != key {
                            if ki == index as int {
                                let ot: int = if t == p { bseq.len() - 1 } else { t };
                                lemma_bucket_found(bseq, k, ot);
                            } else {
                                assert(old(self).bucket_for(k) == kb);
                            }
                        }
                    }
                    assert forall|k: K| #[trigger]
                        old(self)@.insert(key, value).contains_key(k)
                        implies self@.contains_key(k) by {
                        if k != key {
                            let ki = bucket_index_of(k.hash_spec(), self.items@.len() as int);
                            let kb = old(self).bucket_for(k);
                            let t = bucket_key_index(kb, k);
                            lemma_bucket_found(kb, k, t);
                            if ki == index as int {
                                assert(t != p);
                                let nt: int = if t == bseq.len() - 1 { p as int } else { t };
                                assert(nb[nt].key == k);
                            }
                        }
                    }
                    assert(self@ =~= old(self)@.insert(key, value));
                    assert(self@.dom() =~= old(self)@.dom().insert(key));
                }
                Some(prior.value)
            },
            None => {
                proof {
                    assert(!bucket_has_key(bseq, key));
                    assert(!old(self)@.contains_key(key));
                }
                self.items[index].push(Entry { key, value });
                self.size = self.size + 1;
                proof {
                    let nb = self.items@[index as int]@;
                    let last = nb.len() - 1;
                    assert(nb == bseq.push(Entry { key, value }));
                    assert(bucket_distinct(nb));
                    assert(table_placed(self.items@));
                    assert(table_distinct(self.items@));
                    lemma_bucket_found(nb, key, last);
                    assert forall|k: K| #[trigger] self@.contains_key(k)
                        implies old(self)@.insert(key, value).contains_key(k) && self@[k] == old(
                        self,
                    )@.insert(key, value)[k] by {
                        let ki = bucket_index_of(k.hash_spec(), self.items@.len() as int);
                        let kb = self.bucket_for(k);
                        let t = bucket_key_index(kb, k);
                        lemma_bucket_found(kb, k, t);
                        if k != key {
                            if ki == index as int {
                                lemma_bucket_found(bseq, k, t);
                            } else {
                                assert(old(self).bucket_for(k) == kb);
                            }
                        }
                    }
                    assert forall|k: K| #[trigger]
                        old(self)@.insert(key, value).contains_key(k)
                        implies self@.contains_key(k) by {
                        if k != key {
                            let ki = bucket_index_of(k.hash_spec(), self.items@.len() as int);
                            let kb = old(self).bucket_for(k);
                            let t = bucket_key_index(kb, k);
                            lemma_bucket_found(kb, k, t);
                            if ki == index as int {
                                assert(nb[t].key == k);
                            }
                        }
                    }
                    assert(self@ =~= old(self)@.insert(key, value));
                    assert(self@.dom() =~= old(self)@.dom().insert(key));
                }
                None
            },
        };
        if self.dynamic_resizing && self.exceeds_threshold() {
            let current_capacity = self.items.len();
            if current_capacity <= usize::MAX / 2 {
                self.resize(current_capacity * 2);
            }
        }
        previous
    }

    /// Reallocates the backing table at the given capacity and redistributes
    /// every entry by recomputing its bucket index against it. The stored
    /// associations are unchanged; only their distribution moves.
    pub fn resize(&mut self, capacity: usize)
        requires
            old(self).well_formed(),
            capacity >= 1,
        ensures
            final(self).well_formed(),
            final(self)@ == old(self)@,
            final(self).capacity_spec() == capacity as int,
            same_configuration(*final(self), *old(self)),
    {
        let mut old_items = Self::create_backing_vec(capacity);
        core::mem::swap(&mut old_items, &mut self.items);
        let ghost old_table = old_items@;
        proof {
            old(self).lemma_view_as_pairs();
            lemma_table_globally_distinct(old_table);
        }
        let mut i: usize = 0;
        while i < old_items.len()
            invariant
                old(self).well_formed(),
                old_table == old(self).items@,
                old_items@.len() == old_table.len(),
                i <= old_table.len(),
                forall|x: int| i <= x < old_table.len() ==> #[trigger] old_items@[x] == old_table[x],
                self.items@.len() == capacity,
                capacity >= 1,
                table_placed(self.items@),
                table_distinct(self.items@),
                forall|k: K| #[trigger]
                    tail_has_key(self.items@, 0, k) ==> !tail_has_key(old_table, i as int, k),
                forall|k: K, v: V| #[trigger] tail_has_pair(old_table, 0, k, v) <==> (tail_has_pair(
                    self.items@,
                    0,
                    k,
                    v,
                ) || tail_has_pair(old_table, i as int, k, v)),
                self.size == old(self).size,
                self.load_factor_numerator == old(self).load_factor_numerator,
                self.load_factor_denominator == old(self).load_factor_denominator,
                self.dynamic_resizing == old(self).dynamic_resizing,
            decreases old_table.len() - i,
        {
            let mut bucket: Vec<Entry<K, V>> = Vec::new();
            core::mem::swap(&mut bucket, &mut old_items[i]);
            let ghost whole_bucket = old_table[i as int]@;
            proof {
                assert(bucket@ == whole_bucket);
                assert(bucket@ =~= whole_bucket.take(bucket@.len() as int));
                assert forall|k: K| #[trigger]
                    tail_has_key(self.items@, 0, k) implies !(tail_has_key(old_table, i + 1, k)
                        || bucket_has_key(bucket@, k)) by {
                    assert(!tail_has_key(old_table, i as int, k));
                    if bucket_has_key(bucket@, k) {
                        let y = choose|y: int|
                            0 <= y < bucket@.len() && (#[trigger] bucket@[y]).key == k;
                        assert(old_table[i as int]@[y].key == k);
                        assert(tail_has_key(old_table, i as int, k));
                        assert(false);
                    }
                    if tail_has_key(old_table, i + 1, k) {
                        let (x, y) = choose|x: int, y: int|
                            i + 1 <= x < old_table.len() && 0 <= y < old_table[x]@.len() && (
                            #[trigger] old_table[x]@[y]).key == k;
                        assert(old_table[x]@[y].key == k);
                        assert(tail_has_key(old_table, i as int, k));
                        assert(false);
                    }
                }
                assert forall|k: K, v: V| #[trigger] tail_has_pair(old_table, 0, k, v) implies (
                tail_has_pair(self.items@, 0, k, v) || tail_has_pair(old_table, i + 1, k, v)
                    || seq_has_pair(bucket@, k, v)) by {
                    if tail_has_pair(old_table, i as int, k, v) {
                        let (x, y) = choose|x: int, y: int|
                            i <= x < old_table.len() && 0 <= y < old_table[x]@.len() && (
                            #[trigger] old_table[x]@[y]).key == k && old_table[x]@[y].value == v;
                        if x == i as int {
                            assert(bucket@[y].key == k && bucket@[y].value == v);
                            assert(seq_has_pair(bucket@, k, v));
                        } else {
                            assert(tail_has_pair(old_table, i + 1, k, v));
                        }
                    }
                }
                assert forall|k: K, v: V|
                    tail_has_pair(old_table, i + 1, k, v) || seq_has_pair(bucket@, k, v) implies
                    #[trigger] tail_has_pair(old_table, i as int, k, v) by {
                    if seq_has_pair(bucket@, k, v) {
                        let y = choose|y: int|
                            0 <= y < bucket@.len() && (#[trigger] bucket@[y]).key == k
                                && bucket@[y].value == v;
                        assert(old_table[i as int]@[y].key == k);
                    }
                }
            }
            while bucket.len() > 0
                invariant
                    old(self).well_formed(),
                    old_table == old(self).items@,
                    old_items@.len() == old_table.len(),
                    i < old_table.len(),
                    whole_bucket == old_table[i as int]@,
                    bucket@.len() <= whole_bucket.len(),
                    bucket@ == whole_bucket.take(bucket@.len() as int),
                    forall|x: int| i < x < old_table.len()
                        ==> #[trigger] old_items@[x] == old_table[x],
                    self.items@.len() == capacity,
                    capacity >= 1,
                    table_placed(self.items@),
                    table_distinct(self.items@),
                    forall|k: K| #[trigger]
                        tail_has_key(self.items@, 0, k) ==> !(tail_has_key(old_table, i + 1, k)
                            || bucket_has_key(bucket@, k)),
                    forall|k: K, v: V| #[trigger] tail_has_pair(old_table, 0, k, v) <==> (
                    tail_has_pair(self.items@, 0, k, v) || tail_has_pair(old_table, i + 1, k, v)
                        || seq_has_pair(bucket@, k, v)),
                    self.size == old(self).size,
                    self.load_factor_numerator == old(self).load_factor_numerator,
                    self.load_factor_denominator == old(self).load_factor_denominator,
                    self.dynamic_resizing == old(self).dynamic_resizing,
                decreases bucket@.len(),
            {
                let ghost prev_table = self.items@;
                let ghost prev_bucket = bucket@;
                let entry = bucket.pop().unwrap();
                let ghost e = entry;
                let ghost bj = bucket@.len() as int;
                let index = find_key_index(&entry.key, self.items.len());
                proof {
                    lemma_table_globally_distinct(old_table);
                    assert(prev_bucket[bj] == e);
                    assert(prev_bucket[bj] == whole_bucket[bj]);
                    assert(old_table[i as int]@[bj] == e);
                    assert(tail_has_pair(old_table, 0, e.key, e.value));
                    // the key is not yet anywhere in the new table
                    assert(!tail_has_key(self.items@, 0, e.key)) by {
                        if tail_has_key(self.items@, 0, e.key) {
                            assert(bucket_has_key(prev_bucket, e.key));
                        }
                    }
                }
                self.items[index].push(entry);
                proof {
                    let nt = self.items@;
                    assert(nt[index as int]@ == prev_table[index as int]@.push(e));
                    assert(forall|x: int| 0 <= x < nt.len() && x != index
                        ==> #[trigger] nt[x] == prev_table[x]);
                    // placement and distinctness survive the push
                    assert(table_placed(nt)) by {
                        assert forall|x: int, y: int|
                            0 <= x < nt.len() && 0 <= y < nt[x]@.len() implies bucket_index_of(
                            (#[trigger] nt[x]@[y]).key.hash_spec(),
                            nt.len() as int,
                        ) == x by {
                            if x == index as int && y == nt[x]@.len() - 1 {
                                assert(nt[x]@[y] == e);
                            } else {
                                assert(nt[x]@[y] == prev_table[x]@[y]);
                            }
                        }
                    }
                    assert(table_distinct(nt)) by {
                        assert forall|x: int| 0 <= x < nt.len() implies bucket_distinct(
                            (#[trigger] nt[x])@,
                        ) by {
                            if x == index as int {
                                assert forall|j1: int, j2: int|
                                    0 <= j1 < j2 < nt[x]@.len() implies (#[trigger] nt[x]@[j1]).key
                                    != (#[trigger] nt[x]@[j2]).key by {
                                    if j2 == nt[x]@.len() - 1 {
                                        assert(nt[x]@[j1] == prev_table[x]@[j1]);
                                        assert(nt[x]@[j2] == e);
                                        if prev_table[x]@[j1].key == e.key {
                                            assert(tail_has_key(prev_table, 0, e.key));
                                        }
                                    } else {
                                        assert(nt[x]@[j1] == prev_table[x]@[j1]);
                                        assert(nt[x]@[j2] == prev_table[x]@[j2]);
                                        assert(bucket_distinct(prev_table[x]@));
                                    }
                                }
                            } else {
                                assert(nt[x] == prev_table[x]);
                                assert(bucket_distinct(prev_table[x]@));
                            }
                        }
                    }
                    // the drained prefix is still a prefix of the original bucket
                    assert(bucket@ =~= whole_bucket.take(bucket@.len() as int));
                    // disjointness survives
                    assert forall|k: K| #[trigger]
                        tail_has_key(nt, 0, k) implies !(tail_has_key(old_table, i + 1, k)
                            || bucket_has_key(bucket@, k)) by {
                        let (x, y) = choose|x: int, y: int|
                            0 <= x < nt.len() && 0 <= y < nt[x]@.len() && (#[trigger] nt[x]@[y]).key
                                == k;
                        if x == index as int && y == nt[x]@.len() - 1 {
                            // the pushed key: any other old-table occurrence would duplicate it
                            if tail_has_key(old_table, i + 1, k) {
                                let (x2, y2) = choose|x2: int, y2: int|
                                    i + 1 <= x2 < old_table.len() && 0 <= y2 < old_table[x2]@.len()
                                        && (#[trigger] old_table[x2]@[y2]).key == k;
                                assert(old_table[x2]@[y2].key == old_table[i as int]@[bj].key);
                                assert(false);
                            }
                            if bucket_has_key(bucket@, k) {
                                let y2 = choose|y2: int|
                                    0 <= y2 < bucket@.len() && (#[trigger] bucket@[y2]).key == k;
                                assert(whole_bucket[y2] == bucket@[y2]);
                                assert(old_table[i as int]@[y2].key
                                    == old_table[i as int]@[bj].key);
                                assert(false);
                            }
                        } else {
                            assert(nt[x]@[y] == prev_table[x]@[y]);
                            assert(tail_has_key(prev_table, 0, k));
                            if bucket_has_key(bucket@, k) {
                                let y2 = choose|y2: int|
                                    0 <= y2 < bucket@.len() && (#[trigger] bucket@[y2]).key == k;
                                assert(prev_bucket[y2] == bucket@[y2]);
                                assert(bucket_has_key(prev_bucket, k));
                            }
                        }
                    }
                    // pair correspondence survives
                    assert forall|k: K, v: V| #[trigger]
                        tail_has_pair(old_table, 0, k, v) implies (tail_has_pair(nt, 0, k, v)
                        || tail_has_pair(old_table, i + 1, k, v) || seq_has_pair(bucket@, k, v)) by {
                        if tail_has_pair(prev_table, 0, k, v) {
                            let (x, y) = choose|x: int, y: int|
                                0 <= x < prev_table.len() && 0 <= y < prev_table[x]@.len() && (
                                #[trigger] prev_table[x]@[y]).key == k && prev_table[x]@[y].value
                                    == v;
                            assert(nt[x]@[y] == prev_table[x]@[y]);
                            assert(tail_has_pair(nt, 0, k, v));
                        } else if seq_has_pair(prev_bucket, k, v) {
                            let y = choose|y: int|
                                0 <= y < prev_bucket.len() && (#[trigger] prev_bucket[y]).key == k
                                    && prev_bucket[y].value == v;
                            if y == bj {
                                assert(nt[index as int]@[nt[index as int]@.len() - 1] == e);
                                assert(tail_has_pair(nt, 0, k, v));
                            } else {
                                assert(bucket@[y] == prev_bucket[y]);
                                assert(seq_has_pair(bucket@, k, v));
                            }
                        }
                    }
                    assert forall|k: K, v: V|
                        tail_has_pair(nt, 0, k, v) || tail_has_pair(old_table, i + 1, k, v)
                            || seq_has_pair(bucket@, k, v) implies #[trigger] tail_has_pair(
                        old_table,
                        0,
                        k,
                        v,
                    ) by {
                        if tail_has_pair(nt, 0, k, v) {
                            let (x, y) = choose|x: int, y: int|
                                0 <= x < nt.len() && 0 <= y < nt[x]@.len() && (
                                #[trigger] nt[x]@[y]).key == k && nt[x]@[y].value == v;
                            if x == index as int && y == nt[x]@.len() - 1 {
                                assert(nt[x]@[y] == e);
                                assert(old_table[i as int]@[bj].key == k);
                                assert(tail_has_pair(old_table, 0, k, v));
                            } else {
                                assert(nt[x]@[y] == prev_table[x]@[y]);
                                assert(tail_has_pair(prev_table, 0, k, v));
                            }
                        } else if seq_has_pair(bucket@, k, v) {
                            let y = choose|y: int|
                                0 <= y < bucket@.len() && (#[trigger] bucket@[y]).key == k
                                    && bucket@[y].value == v;
                            assert(prev_bucket[y] == bucket@[y]);
                            assert(seq_has_pair(prev_bucket, k, v));
                        }
                    }
                }
            }
            i += 1;
            proof {
                assert(bucket@.len() == 0);
                assert forall|k: K, v: V| #[trigger] tail_has_pair(old_table, 0, k, v) implies (
                tail_has_pair(self.items@, 0, k, v) || tail_has_pair(old_table, i as int, k, v)) by {
                    assert(!seq_has_pair(bucket@, k, v));
                }
                assert forall|k: K| #[trigger]
                    tail_has_key(self.items@, 0, k) implies !tail_has_key(
                    old_table,
                    i as int,
                    k,
                ) by {
                    assert(!(tail_has_key(old_table, i as int, k) || bucket_has_key(bucket@, k)));
                }
            }
        }
        proof {
            self.lemma_view_as_pairs();
            assert forall|k: K| #[trigger] self@.contains_key(k) implies old(self)@.contains_key(k)
                && self@[k] == old(self)@[k] by {
                let v = self@[k];
                assert(tail_has_pair(self.items@, 0, k, v)) by {
                    let j = bucket_key_index(self.bucket_for(k), k);
                    let ki = bucket_index_of(k.hash_spec(), self.items@.len() as int);
                    assert(self.items@[ki]@[j].key == k);
                }
                assert(tail_has_pair(old_table, 0, k, v));
            }
            assert forall|k: K| #[trigger] old(self)@.contains_key(k) implies self@.contains_key(
                k,
            ) by {
                let v = old(self)@[k];
                assert(tail_has_pair(old_table, 0, k, v));
                assert(tail_has_pair(self.items@, 0, k, v));
            }
            assert(self@ =~= old(self)@);
        }
    }
}

/// Some position of the bucket holds exactly this key/value pair.
pub(crate) open spec fn seq_has_pair<K, V>(bucket: Seq<Entry<K, V>>, key: K, value: V) -> bool {
    exists|j: int|
        0 <= j < bucket.len() && (#[trigger] bucket[j]).key == key && bucket[j].value == value
}

/// Some bucket at position `from` or later holds this key/value pair.
pub(crate) open spec fn tail_has_pair<K, V>(
    table: Seq<Vec<Entry<K, V>>>,
    from: int,
    key: K,
    value: V,
) -> bool {
    exists|i: int, j: int|
        from <= i < table.len() && 0 <= j < table[i]@.len() && (#[trigger] table[i]@[j]).key == key
            && table[i]@[j].value == value
}

/// Some bucket at position `from` or later holds an entry for this key.
pub(crate) open spec fn tail_has_key<K, V>(table: Seq<Vec<Entry<K, V>>>, from: int, key: K) -> bool {
    exists|i: int, j: int|
        from <= i < table.len() && 0 <= j < table[i]@.len() && (#[trigger] table[i]@[j]).key == key
}

/// In a placed table with per-bucket distinctness, no key occurs at two
/// distinct positions: placement pins the bucket, distinctness the slot.
proof fn lemma_table_globally_distinct<K: MapKey, V>(table: Seq<Vec<Entry<K, V>>>)
    requires
        table_placed(table),
        table_distinct(table),
    ensures
        forall|i1: int, j1: int, i2: int, j2: int|
            0 <= i1 < table.len() && 0 <= j1 < table[i1]@.len() && 0 <= i2 < table.len() && 0 <= j2
                < table[i2]@.len() && (i1 != i2 || j1 != j2) ==> (#[trigger] table[i1]@[j1]).key
                != (#[trigger] table[i2]@[j2]).key,
{
    assert forall|i1: int, j1: int, i2: int, j2: int|
        0 <= i1 < table.len() && 0 <= j1 < table[i1]@.len() && 0 <= i2 < table.len() && 0 <= j2
            < table[i2]@.len() && (i1 != i2 || j1 != j2) implies (#[trigger] table[i1]@[j1]).key
        != (#[trigger] table[i2]@[j2]).key by {
        if table[i1]@[j1].key == table[i2]@[j2].key {
            assert(bucket_index_of(table[i1]@[j1].key.hash_spec(), table.len() as int) == i1);
            assert(bucket_index_of(table[i2]@[j2].key.hash_spec(), table.len() as int) == i2);
            assert(i1 == i2);
            assert(bucket_distinct(table[i1]@));
            if j1 < j2 {
                assert(table[i1]@[j1].key != table[i1]@[j2].key);
            } else {
                assert(table[i1]@[j2].key != table[i1]@[j1].key);
            }
        }
    }

}

/// The growth trigger: the live-entry count has reached the load-factor
/// share of the bucket count.
pub open spec fn meets_threshold(
    size: int,
    capacity: int,
    numerator: int,
    denominator: int,
) -> bool {
    size * denominator >= capacity * numerator
}

/// Two maps share one growth configuration.
pub open spec fn same_configuration<K: MapKey, V>(a: HashMap<K, V>, b: HashMap<K, V>) -> bool {
    &&& a.load_factor_numerator_spec() == b.load_factor_numerator_spec()
    &&& a.load_factor_denominator_spec() == b.load_factor_denominator_spec()
    &&& a.dynamic_resizing_spec() == b.dynamic_resizing_spec()
}

/// A sequence of pairs that covers every association of a finite map,
/// holds no other pair, and repeats no key has exactly the map's length.
pub proof fn lemma_covering_distinct_pairs_len<K, V>(pairs: Seq<(K, V)>, m: Map<K, V>)
    requires
        m.dom().finite(),
        forall|t: int| 0 <= t < pairs.len() ==> m.contains_key((#[trigger] pairs[t]).0),
        forall|k: K| #[trigger]
            m.contains_key(k) ==> exists|t: int|
                0 <= t < pairs.len() && (#[trigger] pairs[t]).0 == k,
        forall|t1: int, t2: int|
            0 <= t1 < t2 < pairs.len() ==> (#[trigger] pairs[t1]).0 != (#[trigger] pairs[t2]).0,
    ensures
        pairs.len() == m.len(),
{
    let keys = pairs.map_values(|p: (K, V)| p.0);
    assert(keys.no_duplicates()) by {
        assert forall|t1: int, t2: int|
            0 <= t1 < keys.len() && 0 <= t2 < keys.len() && t1 != t2 implies keys[t1]
            != keys[t2] by {
            if t1 < t2 {
                assert(pairs[t1].0 != pairs[t2].0);
            } else {
                assert(pairs[t2].0 != pairs[t1].0);
            }
        }
    }
    keys.unique_seq_to_set();
    assert(keys.to_set() =~= m.dom()) by {
        assert forall|k: K| #[trigger] keys.to_set().contains(k) implies m.dom().contains(k) by {
            let t = choose|t: int| 0 <= t < keys.len() && keys[t] == k;
            assert(m.contains_key(pairs[t].0));
        }
        assert forall|k: K| #[trigger] m.dom().contains(k) implies keys.to_set().contains(k) by {
            let t = choose|t: int| 0 <= t < pairs.len() && (#[trigger] pairs[t]).0 == k;
            assert(keys[t] == k);
            assert(keys.contains(k));
        }
    }
}

/// A key never inserted is absent: it is absent from the empty map, and
/// neither putting nor popping any other key makes it appear.
pub proof fn lemma_untouched_key_stays_absent<K, V>(m: Map<K, V>, k: K, other: K, v: V)
    requires
        !m.contains_key(k),
        other != k,
    ensures
        !Map::<K, V>::empty().contains_key(k),
        !m.insert(other, v).contains_key(k),
        !m.remove(other).contains_key(k),
{
}

/// After putting (k, v), the map associates v to k: a lookup of k finds
/// exactly the value just stored.
pub proof fn lemma_put_then_get<K, V>(m: Map<K, V>, k: K, v: V)
    ensures
        m.insert(k, v).contains_key(k),
        m.insert(k, v)[k] == v,
{
}

/// Putting (k, v2) over an existing (k, v1) hands back v1 as the previous
/// value, leaves a lookup of k at v2, and does not change the entry count.
pub proof fn lemma_put_overwrites<K, V>(m: Map<K, V>, k: K, v1: V, v2: V)
    requires
        m.dom().finite(),
    ensures
        m.insert(k, v1)[k] == v1,
        m.insert(k, v1).insert(k, v2) == m.insert(k, v2),
        m.insert(k, v1).insert(k, v2)[k] == v2,
        m.insert(k, v1).insert(k, v2).len() == m.insert(k, v1).len(),
{
    assert(m.insert(k, v1).insert(k, v2) =~= m.insert(k, v2));
    assert(m.insert(k, v1).insert(k, v2).dom() =~= m.insert(k, v1).dom());
}

/// Popping k right after putting (k, v) hands back v and leaves k absent;
/// popping it once more finds nothing and changes nothing.
pub proof fn lemma_put_then_pop<K, V>(m: Map<K, V>, k: K, v: V)
    ensures
        m.insert(k, v)[k] == v,
        !m.insert(k, v).remove(k).contains_key(k),
        m.insert(k, v).remove(k).remove(k) == m.insert(k, v).remove(k),
{
    assert(m.insert(k, v).remove(k).remove(k) =~= m.insert(k, v).remove(k));
}

/// Popping a key that is absent leaves the map exactly as it was.
pub proof fn lemma_pop_absent<K, V>(m: Map<K, V>, k: K)
    requires
        !m.contains_key(k),
    ensures
        m.remove(k) == m,
{
    assert(m.remove(k) =~= m);
}

/// Two distinct keys whose digests collide are stored and retrieved
/// independently: both associations survive side by side.
pub proof fn lemma_colliding_keys_coexist<K: MapKey, V>(m: Map<K, V>, k1: K, k2: K, v1: V, v2: V)
    requires
        k1 != k2,
        k1.hash_spec() == k2.hash_spec(),
    ensures
        m.insert(k1, v1).insert(k2, v2).contains_key(k1),
        m.insert(k1, v1).insert(k2, v2).contains_key(k2),
        m.insert(k1, v1).insert(k2, v2)[k1] == v1,
        m.insert(k1, v1).insert(k2, v2)[k2] == v2,
{
}

} // verus!
