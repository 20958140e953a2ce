//! The separate-chaining hash map container and its iterator.

use crate::key::MapKey;
use crate::table::{
    distinct_keys, find_key, lemma_find_key_exists, lemma_find_key_is, lemma_pairs_from_all_empty,
    lemma_pairs_from_contains, lemma_pairs_from_keys_distinct, lemma_pairs_from_update_len,
    lemma_route_in_range, pairs_from, route, table_view, table_wf, tail_pairs,
};
use vstd::map::*;
use vstd::prelude::*;

verus! {

/// A hash map from keys `K` to values `V`, resolving collisions by separate
/// chaining: an ordered sequence of buckets, each an ordered sequence of
/// key-value pairs, with a count of the stored items.
pub struct HashMap<K, V> {
    buckets: Vec<Vec<(K, V)>>,
    items: usize,
}

impl<K: MapKey, V> HashMap<K, V> {
    /// All stored pairs, in bucket-then-position order: the order a full
    /// traversal yields them in.
    pub closed spec fn all_pairs(self) -> Seq<(K, V)> {
        pairs_from(self.buckets@, 0)
    }

    /// Well-formed: the bucket table routes every key to its bucket, keys
    /// are distinct, and the item count equals the number of stored pairs.
    pub closed spec fn wf(self) -> bool {
        &&& table_wf(self.buckets@)
        &&& self.items == self.all_pairs().len()
    }
}

impl<K: MapKey, V> View for HashMap<K, V> {
    type V = Map<<K as View>::V, V>;

    closed spec fn view(&self) -> Map<<K as View>::V, V> {
        table_view(self.buckets@)
    }
}

impl<K: MapKey, V> HashMap<K, V> {
    /// Creates an empty map: zero buckets, zero items, no allocation.
    pub fn new() -> (m: Self)
        ensures
            m.wf(),
            m@ == Map::<<K as View>::V, V>::empty(),
    {
        let m = HashMap { buckets: Vec::new(), items: 0 };
        proof {
            assert(m@ =~= Map::<<K as View>::V, V>::empty());
        }
        m
    }

    /// The number of stored items.
    pub fn len(&self) -> (n: usize)
        requires
            self.wf(),
        ensures
            n == self@.len(),
    {
        proof {
            self.lemma_view_len();
        }
        self.items
    }

    /// Whether the map holds no items.
    pub fn is_empty(&self) -> (e: bool)
        requires
            self.wf(),
        ensures
            e == (self@.len() == 0),
    {
        proof {
            self.lemma_view_len();
        }
        self.items == 0
    }

    /// The bucket a key is routed to: its hash, reduced modulo the number
    /// of buckets.
    fn bucket(&self, key: &K) -> (b: usize)
        requires
            self.buckets@.len() > 0,
        ensures
            b == route::<K>(self.buckets@.len() as int, key@),
            b < self.buckets@.len(),
    {
        proof {
            assert(self.buckets.len() == self.buckets@.len());
            lemma_route_in_range::<K>(self.buckets@.len() as int, key@);
        }
        let h = key.key_hash();
        let n = self.buckets.len() as u64;
        (h % n) as usize
    }

    /// Looks the key up: a reference to its value, or absence.
    pub fn get(&self, key: K) -> (r: Option<&V>)
        requires
            self.wf(),
        ensures
            match r {
                Some(v) => self@.contains_key(key@) && *v == self@[key@],
                None => !self@.contains_key(key@),
            },
    {
        if self.is_empty() {
            proof {
                self.lemma_view_len();
                if self@.dom().contains(key@) {
                    self@.dom().lemma_len0_is_empty();
                }
            }
            return None;
        }
        proof {
            self.lemma_view_len();
            self.lemma_nonempty_has_buckets();
        }
        let b = self.bucket(&key);
        let bucket = &self.buckets[b];
        proof {
            assert(bucket@.skip(0) =~= bucket@);
        }
        let mut j: usize = 0;
        while j < bucket.len()
            invariant
                self.wf(),
                b == route::<K>(self.buckets@.len() as int, key@),
                b < self.buckets@.len(),
                bucket@ == self.buckets@[b as int]@,
                j <= bucket@.len(),
                find_key(bucket@, key@) == find_key(bucket@.skip(j as int), key@),
            decreases bucket@.len() - j,
        {
            if key.key_eq(&bucket[j].0) {
                proof {
                    assert(bucket@.skip(j as int)[0] == bucket@[j as int]);
                }
                return Some(&bucket[j].1);
            }
            proof {
                assert(bucket@.skip(j as int).drop_first() =~= bucket@.skip(j as int + 1));
            }
            j += 1;
        }
        proof {
            assert(bucket@.skip(j as int) =~= Seq::<(K, V)>::empty());
        }
        None
    }

    /// Whether the key is present; the same lookup as `get`, reduced to a
    /// boolean.
    pub fn contains_key(&self, key: K) -> (r: bool)
        requires
            self.wf(),
        ensures
            r == self@.contains_key(key@),
    {
        if self.is_empty() {
            proof {
                self.lemma_view_len();
                if self@.dom().contains(key@) {
                    self@.dom().lemma_len0_is_empty();
                }
            }
            return false;
        }
        proof {
            self.lemma_view_len();
            self.lemma_nonempty_has_buckets();
        }
        let b = self.bucket(&key);
        let bucket = &self.buckets[b];
        proof {
            assert(bucket@.skip(0) =~= bucket@);
        }
        let mut j: usize = 0;
        while j < bucket.len()
            invariant
                self.wf(),
                b == route::<K>(self.buckets@.len() as int, key@),
                b < self.buckets@.len(),
                bucket@ == self.buckets@[b as int]@,
                j <= bucket@.len(),
                find_key(bucket@, key@) == find_key(bucket@.skip(j as int), key@),
            decreases bucket@.len() - j,
        {
            if key.key_eq(&bucket[j].0) {
                proof {
                    assert(bucket@.skip(j as int)[0] == bucket@[j as int]);
                }
                return true;
            }
            proof {
                assert(bucket@.skip(j as int).drop_first() =~= bucket@.skip(j as int + 1));
            }
            j += 1;
        }
        proof {
            assert(bucket@.skip(j as int) =~= Seq::<(K, V)>::empty());
        }
        false
    }

    /// Inserts the pair, or replaces the value under an existing key and
    /// returns the previous value. The table grows first when it has no
    /// buckets yet or the stored items exceed three quarters of the bucket
    /// count. A fresh key asks that the map hold fewer than `usize::MAX`
    /// entries, so that the item count can still be represented.
    pub fn insert(&mut self, key: K, value: V) -> (prev: Option<V>)
        requires
            old(self).wf(),
            !old(self)@.contains_key(key@) ==> old(self)@.len() < usize::MAX,
        ensures
            final(self).wf(),
            final(self)@ == old(self)@.insert(key@, value),
            prev == (if old(self)@.contains_key(key@) {
                Some(old(self)@[key@])
            } else {
                None::<V>
            }),
    {
        proof {
            self.lemma_view_len();
        }
        if self.buckets.is_empty() || ((self.items as u128) * 4 > (self.buckets.len() as u128) * 3
            && self.buckets.len() <= usize::MAX / 2) {
            self.resize();
        }
        let b = self.bucket(&key);
        let ghost bv = self.buckets@[b as int]@;
        let blen = self.buckets[b].len();
        let mut j: usize = 0;
        while j < blen
            invariant
                self.wf(),
                self@ == old(self)@,
                self.items == old(self).items,
                old(self)@.dom().finite(),
                old(self)@.dom().len() == old(self).items,
                self.buckets@.len() > 0,
                b == route::<K>(self.buckets@.len() as int, key@),
                b < self.buckets@.len(),
                bv == self.buckets@[b as int]@,
                blen == bv.len(),
                j <= blen,
                forall|t: int| 0 <= t < j ==> (#[trigger] bv[t]).0@ != key@,
            decreases blen - j,
        {
            if key.key_eq(&self.buckets[b][j].0) {
                let ghost bs_pre = self.buckets@;
                let ghost k = key@;
                let bucket = &mut self.buckets[b];
                let oldp = bucket.swap_remove(j);
                bucket.push((key, value));
                proof {
                    let bs_post = self.buckets@;
                    let nbv = bs_post[b as int]@;
                    let last: int = bv.len() - 1;
                    assert(bs_post == bs_pre.update(b as int, bs_post[b as int]));
                    assert(self.buckets.len() == self.buckets@.len());
                    assert(0 < bs_pre.len() <= usize::MAX);
                    assert(table_view::<K, V>(bs_pre) == old(self)@);
                    assert(oldp == bv[j as int]);
                    assert(nbv == bv.update(j as int, bv[last]).drop_last().push((key, value)));
                    assert(nbv.len() == bv.len());
                    assert(forall|m: int|
                        0 <= m < last ==> (#[trigger] nbv[m]) == (if m == j as int {
                            bv[last]
                        } else {
                            bv[m]
                        }));
                    assert(nbv[last].0@ == k && nbv[last].1 == value);
                    assert(distinct_keys(bv));
                    lemma_find_key_is(bv, k);
                    assert(find_key(bv, k) == Some(oldp.1));
                    assert(old(self)@.dom().contains(k) && old(self)@[k] == oldp.1);
                    assert(distinct_keys(nbv)) by {
                        assert forall|m1: int, m2: int|
                            0 <= m1 < m2 < nbv.len() implies nbv[m1].0@ != nbv[m2].0@ by {
                            if m2 == last {
                                if m1 == j as int {
                                    assert(nbv[m1] == bv[last]);
                                } else {
                                    assert(nbv[m1] == bv[m1]);
                                }
                                assert(bv[j as int].0@ == k);
                            }
                        }
                    }
                    assert(table_wf(bs_post)) by {
                        assert forall|t: int, m: int|
                            0 <= t < bs_post.len() && 0 <= m < bs_post[t]@.len() implies route::<
                            K,
                        >(bs_post.len() as int, (#[trigger] bs_post[t]@[m]).0@) == t by {
                            if t == b as int {
                                if m == last {
                                    assert(nbv[m].0@ == k);
                                } else if m == j as int {
                                    assert(nbv[m] == bv[last]);
                                } else {
                                    assert(nbv[m] == bv[m]);
                                }
                            }
                        }
                    }
                    lemma_pairs_from_update_len(bs_pre, b as int, self.buckets[b as int], 0);
                    assert_maps_equal!(table_view::<K, V>(bs_post), old(self)@.insert(k, value),
                        kv => {
                        {
                            lemma_route_in_range::<K>(bs_pre.len() as int, kv);
                            let r = route::<K>(bs_pre.len() as int, kv);
                            lemma_find_key_is(bs_pre[r]@, kv);
                            lemma_find_key_is(bs_post[r]@, kv);
                            if r == b as int {
                                if kv == k {
                                    assert(nbv[last].0@ == kv);
                                } else {
                                    if find_key(bv, kv) is Some {
                                        let t = choose|t: int|
                                            0 <= t < bv.len() && (#[trigger] bv[t]).0@ == kv;
                                        assert(t != j as int);
                                        if t == last {
                                            assert(nbv[j as int] == bv[t]);
                                        } else {
                                            assert(nbv[t] == bv[t]);
                                        }
                                    }
                                    if find_key(nbv, kv) is Some {
                                        let m = choose|m: int|
                                            0 <= m < nbv.len() && (#[trigger] nbv[m]).0@ == kv;
                                        assert(m != last);
                                        if m == j as int {
                                            assert(nbv[m] == bv[last]);
                                        } else {
                                            assert(nbv[m] == bv[m]);
                                        }
                                    }
                                }
                            } else {
                                assert(bs_post[r] == bs_pre[r]);
                            }
                        }
                    });
                }
                return Some(oldp.1);
            }
            j += 1;
        }
        proof {
            lemma_find_key_is(bv, key@);
            assert(!self@.dom().contains(key@));
            assert(self.items < usize::MAX);
        }
        let ghost bs_pre = self.buckets@;
        let ghost k = key@;
        let bucket = &mut self.buckets[b];
        bucket.push((key, value));
        self.items = self.items + 1;
        proof {
            let bs_post = self.buckets@;
            let nbv = bs_post[b as int]@;
            assert(bs_post == bs_pre.update(b as int, bs_post[b as int]));
            assert(self.buckets.len() == self.buckets@.len());
            assert(0 < bs_pre.len() <= usize::MAX);
            assert(table_view::<K, V>(bs_pre) == old(self)@);
            assert(nbv == bv.push((key, value)));
            assert(nbv.len() == bv.len() + 1);
            assert(forall|m: int| 0 <= m < bv.len() ==> (#[trigger] nbv[m]) == bv[m]);
            assert(nbv[bv.len() as int].0@ == k && nbv[bv.len() as int].1 == value);
            assert(distinct_keys(nbv)) by {
                assert forall|m1: int, m2: int|
                    0 <= m1 < m2 < nbv.len() implies nbv[m1].0@ != nbv[m2].0@ by {
                    if m2 == bv.len() as int {
                        assert(nbv[m1] == bv[m1]);
                    }
                }
            }
            assert(table_wf(bs_post)) by {
                assert forall|t: int, m: int|
                    0 <= t < bs_post.len() && 0 <= m < bs_post[t]@.len() implies route::<K>(
                    bs_post.len() as int,
                    (#[trigger] bs_post[t]@[m]).0@,
                ) == t by {
                    if t == b as int && m < bv.len() {
                        assert(nbv[m] == bv[m]);
                    }
                }
            }
            lemma_pairs_from_update_len(bs_pre, b as int, self.buckets[b as int], 0);
            assert_maps_equal!(table_view::<K, V>(bs_post), old(self)@.insert(k, value), kv => {
                {
                    lemma_route_in_range::<K>(bs_pre.len() as int, kv);
                    let r = route::<K>(bs_pre.len() as int, kv);
                    lemma_find_key_is(bs_pre[r]@, kv);
                    lemma_find_key_is(bs_post[r]@, kv);
                    if r == b as int {
                        if kv == k {
                            assert(nbv[bv.len() as int].0@ == kv);
                        } else {
                            if find_key(bv, kv) is Some {
                                let t = choose|t: int|
                                    0 <= t < bv.len() && (#[trigger] bv[t]).0@ == kv;
                                assert(nbv[t] == bv[t]);
                            }
                            if find_key(nbv, kv) is Some {
                                let m = choose|m: int|
                                    0 <= m < nbv.len() && (#[trigger] nbv[m]).0@ == kv;
                                assert(m != bv.len() as int);
                                assert(nbv[m] == bv[m]);
                            }
                        }
                    } else {
                        assert(bs_post[r] == bs_pre[r]);
                    }
                }
            });
        }
        None
    }

    /// Removes the entry under the key, if present, and returns its value;
    /// the bucket loses the pair by a swap with its last pair, and the item
    /// count decreases by one. On an absent key nothing changes.
    pub fn remove(&mut self, key: K) -> (prev: Option<V>)
        requires
            old(self).wf(),
        ensures
            final(self).wf(),
            final(self)@ == old(self)@.remove(key@),
            prev == (if old(self)@.contains_key(key@) {
                Some(old(self)@[key@])
            } else {
                None::<V>
            }),
    {
        if self.buckets.len() == 0 {
            proof {
                assert(!self@.dom().contains(key@));
                assert_maps_equal!(old(self)@.remove(key@), old(self)@);
            }
            return None;
        }
        let b = self.bucket(&key);
        let ghost bv = self.buckets@[b as int]@;
        let blen = self.buckets[b].len();
        let mut j: usize = 0;
        while j < blen
            invariant
                self.wf(),
                self@ == old(self)@,
                self.buckets@.len() > 0,
                b == route::<K>(self.buckets@.len() as int, key@),
                b < self.buckets@.len(),
                bv == self.buckets@[b as int]@,
                blen == bv.len(),
                j <= blen,
                forall|t: int| 0 <= t < j ==> (#[trigger] bv[t]).0@ != key@,
            decreases blen - j,
        {
            if key.key_eq(&self.buckets[b][j].0) {
                let ghost bs_pre = self.buckets@;
                let ghost k = key@;
                let bucket = &mut self.buckets[b];
                let p = bucket.swap_remove(j);
                proof {
                    let bs_post = self.buckets@;
                    let nbv = bs_post[b as int]@;
                    let last: int = bv.len() - 1;
                    assert(bs_post == bs_pre.update(b as int, bs_post[b as int]));
                    assert(self.buckets.len() == self.buckets@.len());
                    assert(0 < bs_pre.len() <= usize::MAX);
                    assert(table_view::<K, V>(bs_pre) == old(self)@);
                    assert(p == bv[j as int]);
                    assert(nbv.len() == bv.len() - 1);
                    assert(forall|m: int|
                        0 <= m < nbv.len() ==> (#[trigger] nbv[m]) == (if m == j as int {
                            bv[last]
                        } else {
                            bv[m]
                        }));
                    assert(distinct_keys(bv));
                    lemma_find_key_is(bv, k);
                    assert(find_key(bv, k) == Some(p.1));
                    assert(old(self)@.dom().contains(k) && old(self)@[k] == p.1);
                    assert(distinct_keys(nbv)) by {
                        assert forall|m1: int, m2: int|
                            0 <= m1 < m2 < nbv.len() implies nbv[m1].0@ != nbv[m2].0@ by {
                            if m1 == j as int {
                                assert(nbv[m1] == bv[last]);
                                assert(nbv[m2] == bv[m2]);
                            } else if m2 == j as int {
                                assert(nbv[m1] == bv[m1]);
                                assert(nbv[m2] == bv[last]);
                            }
                        }
                    }
                    assert(table_wf(bs_post)) by {
                        assert forall|t: int, m: int|
                            0 <= t < bs_post.len() && 0 <= m < bs_post[t]@.len() implies route::<
                            K,
                        >(bs_post.len() as int, (#[trigger] bs_post[t]@[m]).0@) == t by {
                            if t == b as int {
                                if m == j as int {
                                    assert(nbv[m] == bv[last]);
                                } else {
                                    assert(nbv[m] == bv[m]);
                                }
                            }
                        }
                    }
                    lemma_pairs_from_update_len(bs_pre, b as int, self.buckets[b as int], 0);
                    assert_maps_equal!(table_view::<K, V>(bs_post), old(self)@.remove(k), kv => {
                        {
                            lemma_route_in_range::<K>(bs_pre.len() as int, kv);
                            let r = route::<K>(bs_pre.len() as int, kv);
                            lemma_find_key_is(bs_pre[r]@, kv);
                            lemma_find_key_is(bs_post[r]@, kv);
                            if r == b as int {
                                if kv == k {
                                    if find_key(nbv, kv) is Some {
                                        let m = choose|m: int|
                                            0 <= m < nbv.len() && (#[trigger] nbv[m]).0@ == kv;
                                        if m == j as int {
                                            assert(nbv[m] == bv[last]);
                                        } else {
                                            assert(nbv[m] == bv[m]);
                                        }
                                        assert(bv[j as int].0@ == k);
                                    }
                                } else {
                                    if find_key(bv, kv) is Some {
                                        let t = choose|t: int|
                                            0 <= t < bv.len() && (#[trigger] bv[t]).0@ == kv;
                                        assert(t != j as int);
                                        if t == last {
                                            assert(nbv[j as int] == bv[t]);
                                        } else {
                                            assert(nbv[t] == bv[t]);
                                        }
                                    }
                                    if find_key(nbv, kv) is Some {
                                        let m = choose|m: int|
                                            0 <= m < nbv.len() && (#[trigger] nbv[m]).0@ == kv;
                                        if m == j as int {
                                            assert(nbv[m] == bv[last]);
                                        } else {
                                            assert(nbv[m] == bv[m]);
                                        }
                                    }
                                }
                            } else {
                                assert(bs_post[r] == bs_pre[r]);
                            }
                        }
                    });
                    assert(self.items >= 1);
                }
                self.items = self.items - 1;
                return Some(p.1);
            }
            j += 1;
        }
        proof {
            lemma_find_key_is(bv, key@);
            assert(!self@.dom().contains(key@));
            assert_maps_equal!(old(self)@.remove(key@), old(self)@);
        }
        None
    }

    /// Grows the bucket table — one bucket where there was none, else twice
    /// as many — and redistributes every stored pair by its hash against the
    /// new bucket count. The association is unchanged.
    fn resize(&mut self)
        requires
            old(self).wf(),
            old(self).buckets@.len() <= usize::MAX / 2,
        ensures
            final(self).wf(),
            final(self)@ == old(self)@,
            final(self).items == old(self).items,
            final(self).buckets@.len() > 0,
    {
        let ghost orig = *self;
        let target: usize = if self.buckets.len() == 0 {
            1
        } else {
            2 * self.buckets.len()
        };
        let mut new_buckets: Vec<Vec<(K, V)>> = Vec::new();
        while new_buckets.len() < target
            invariant
                new_buckets@.len() <= target,
                forall|t: int|
                    0 <= t < new_buckets@.len() ==> (#[trigger] new_buckets@[t])@.len() == 0,
            decreases target - new_buckets@.len(),
        {
            new_buckets.push(Vec::new());
        }
        proof {
            lemma_pairs_from_all_empty(new_buckets@, 0);
            assert(table_view::<K, V>(new_buckets@) =~= Map::<<K as View>::V, V>::empty())
                by {
                assert forall|kv: <K as View>::V| !table_view::<K, V>(
                    new_buckets@,
                ).dom().contains(kv) by {
                    lemma_route_in_range::<K>(new_buckets@.len() as int, kv);
                }
            }
            assert_maps_equal!(table_view::<K, V>(self.buckets@).union_prefer_right(
                table_view::<K, V>(new_buckets@),
            ), orig@);
        }
        let mut i: usize = 0;
        while i < self.buckets.len()
            invariant
                i <= self.buckets@.len(),
                self.buckets@.len() == orig.buckets@.len(),
                self.items == orig.items,
                target as int == (if orig.buckets@.len() == 0 {
                    1int
                } else {
                    2 * orig.buckets@.len() as int
                }),
                new_buckets@.len() == target,
                forall|t: int| 0 <= t < i ==> (#[trigger] self.buckets@[t])@.len() == 0,
                table_wf(self.buckets@),
                table_wf(new_buckets@),
                pairs_from(self.buckets@, 0).len() + pairs_from(new_buckets@, 0).len()
                    == orig.items,
                table_view::<K, V>(self.buckets@).dom().disjoint(
                    table_view::<K, V>(new_buckets@).dom(),
                ),
                table_view::<K, V>(self.buckets@).union_prefer_right(
                    table_view::<K, V>(new_buckets@),
                ) == orig@,
            decreases self.buckets@.len() - i, pairs_from(self.buckets@, 0).len(),
        {
            if self.buckets[i].len() == 0 {
                i += 1;
            } else {
                let ghost bs0 = self.buckets@;
                let ghost nbs0 = new_buckets@;
                let ghost ov0 = table_view::<K, V>(bs0);
                let ghost nv0 = table_view::<K, V>(nbs0);
                let p = self.buckets[i].pop().unwrap();
                let ghost bs1 = self.buckets@;
                let ghost k = p.0@;
                proof {
                    assert(p == bs0[i as int]@.last());
                    assert(route::<K>(bs0.len() as int, k) == i);
                    assert(bs1 == bs0.update(i as int, bs1[i as int]));
                    assert(bs1[i as int]@ =~= bs0[i as int]@.drop_last());
                    assert(table_wf(bs1)) by {
                        assert forall|t: int, j: int|
                            0 <= t < bs1.len() && 0 <= j < bs1[t]@.len() implies route::<K>(
                            bs1.len() as int,
                            (#[trigger] bs1[t]@[j]).0@,
                        ) == t by {
                            if t == i {
                                assert(bs1[t]@[j] == bs0[t]@[j]);
                            }
                        }
                        assert forall|t: int| 0 <= t < bs1.len() implies distinct_keys(
                            #[trigger] bs1[t]@,
                        ) by {
                            if t == i {
                                assert forall|j1: int, j2: int|
                                    0 <= j1 < j2 < bs1[t]@.len() implies bs1[t]@[j1].0@
                                    != bs1[t]@[j2].0@ by {
                                    assert(bs1[t]@[j1] == bs0[t]@[j1]);
                                    assert(bs1[t]@[j2] == bs0[t]@[j2]);
                                    assert(distinct_keys(bs0[t]@));
                                }
                            }
                        }
                    }
                    lemma_find_key_is(bs0[i as int]@, k);
                    assert(ov0.dom().contains(k) && ov0[k] == p.1);
                    assert(self.buckets.len() == bs1.len());
                    assert_maps_equal!(table_view::<K, V>(bs1), ov0.remove(k), kv => {
                        {
                            lemma_route_in_range::<K>(bs0.len() as int, kv);
                            let r = route::<K>(bs0.len() as int, kv);
                            lemma_find_key_is(bs0[r]@, kv);
                            lemma_find_key_is(bs1[r]@, kv);
                            if r == i {
                                let b0 = bs0[i as int]@;
                                let b1 = bs1[i as int]@;
                                assert(forall|j: int|
                                    0 <= j < b1.len() ==> (#[trigger] b1[j]) == b0[j]);
                                assert(forall|j: int|
                                    0 <= j < b1.len() ==> b1[j] == (#[trigger] b0[j]));
                                assert(distinct_keys(b0));
                                if kv == k {
                                    assert(b0[b0.len() - 1].0@ == k);
                                    assert(!(find_key(b1, kv) is Some)) by {
                                        if exists|j: int|
                                            0 <= j < b1.len() && (#[trigger] b1[j]).0@ == kv {
                                            let j = choose|j: int|
                                                0 <= j < b1.len() && (#[trigger] b1[j]).0@ == kv;
                                            assert(b0[j].0@ == b0[b0.len() - 1].0@);
                                        }
                                    }
                                }
                            } else {
                                assert(bs1[r] == bs0[r]);
                            }
                        }
                    });
                    lemma_pairs_from_update_len(bs0, i as int, self.buckets[i as int], 0);
                }
                let h = p.0.key_hash();
                let nb = (h % (target as u64)) as usize;
                proof {
                    lemma_route_in_range::<K>(target as int, k);
                }
                let ghost nold = new_buckets@[nb as int]@;
                new_buckets[nb].push(p);
                let ghost nbs1 = new_buckets@;
                proof {
                    assert(nbs1 == nbs0.update(nb as int, nbs1[nb as int]));
                    assert(nbs1[nb as int]@ == nold.push(p));
                    assert(!nv0.dom().contains(k));
                    lemma_find_key_is(nold, k);
                    assert(forall|j: int| 0 <= j < nold.len() ==> (#[trigger] nold[j]).0@ != k);
                    assert(table_wf(nbs1)) by {
                        assert forall|t: int, j: int|
                            0 <= t < nbs1.len() && 0 <= j < nbs1[t]@.len() implies route::<K>(
                            nbs1.len() as int,
                            (#[trigger] nbs1[t]@[j]).0@,
                        ) == t by {
                            if t == nb && j < nold.len() {
                                assert(nbs1[t]@[j] == nold[j]);
                            }
                        }
                        assert forall|t: int| 0 <= t < nbs1.len() implies distinct_keys(
                            #[trigger] nbs1[t]@,
                        ) by {
                            if t == nb {
                                assert forall|j1: int, j2: int|
                                    0 <= j1 < j2 < nbs1[t]@.len() implies nbs1[t]@[j1].0@
                                    != nbs1[t]@[j2].0@ by {
                                    if j2 < nold.len() {
                                        assert(distinct_keys(nold));
                                    } else {
                                        assert(nbs1[t]@[j2] == p);
                                        assert(nbs1[t]@[j1] == nold[j1]);
                                    }
                                }
                            }
                        }
                    }
                    assert_maps_equal!(table_view::<K, V>(nbs1), nv0.insert(k, p.1), kv => {
                        {
                            let r = route::<K>(target as int, kv);
                            lemma_route_in_range::<K>(target as int, kv);
                            lemma_find_key_is(nbs0[r]@, kv);
                            lemma_find_key_is(nbs1[r]@, kv);
                            if r == nb {
                                assert(forall|j: int|
                                    0 <= j < nold.len() ==> (#[trigger] nbs1[r]@[j]) == nold[j]);
                                assert(forall|j: int|
                                    0 <= j < nold.len() ==> nbs1[r]@[j] == (#[trigger] nold[j]));
                                assert(nbs1[r]@[nold.len() as int] == p);
                            } else {
                                assert(nbs1[r] == nbs0[r]);
                            }
                        }
                    });
                    lemma_pairs_from_update_len(nbs0, nb as int, new_buckets[nb as int], 0);
                    assert_maps_equal!(table_view::<K, V>(bs1).union_prefer_right(
                        table_view::<K, V>(nbs1),
                    ), ov0.union_prefer_right(nv0));
                }
            }
        }
        proof {
            lemma_pairs_from_all_empty(self.buckets@, 0);
            assert(table_view::<K, V>(self.buckets@) =~= Map::<<K as View>::V, V>::empty()) by {
                assert forall|kv: <K as View>::V| !table_view::<K, V>(
                    self.buckets@,
                ).dom().contains(kv) by {
                    if self.buckets@.len() > 0 {
                        lemma_route_in_range::<K>(self.buckets@.len() as int, kv);
                    }
                }
            }
            assert_maps_equal!(table_view::<K, V>(new_buckets@), orig@);
        }
        self.buckets = new_buckets;
    }

    /// A map with at least one item has at least one bucket.
    proof fn lemma_nonempty_has_buckets(self)
        requires
            self.wf(),
            self.items > 0,
        ensures
            self.buckets@.len() > 0,
    {
        if self.buckets@.len() == 0 {
            assert(self.all_pairs() == Seq::<(K, V)>::empty());
        }
    }

    /// The abstract map is finite and has exactly as many entries as the
    /// table holds pairs.
    proof fn lemma_view_len(self)
        requires
            self.wf(),
        ensures
            self@.dom().finite(),
            self@.dom().len() == self.all_pairs().len(),
    {
        let keys = self.all_pairs().map_values(|p: (K, V)| p.0@);
        lemma_pairs_from_keys_distinct(self.buckets@, 0);
        assert(self@.dom() =~= keys.to_set()) by {
            assert forall|kv: <K as View>::V| self@.dom().contains(kv) implies keys.to_set().contains(
                kv,
            ) by {
                let t = route::<K>(self.buckets@.len() as int, kv);
                assert(self.buckets.len() == self.buckets@.len());
                lemma_route_in_range::<K>(self.buckets@.len() as int, kv);
                lemma_find_key_exists(self.buckets@[t]@, kv);
                let j = choose|j: int|
                    0 <= j < self.buckets@[t]@.len() && self.buckets@[t]@[j].0@ == kv;
                let p = self.buckets@[t]@[j];
                lemma_pairs_from_contains(self.buckets@, 0, p);
                let n = choose|n: int|
                    0 <= n < self.all_pairs().len() && #[trigger] self.all_pairs()[n] == p;
                assert(keys[n] == kv);
            }
            assert forall|kv: <K as View>::V| keys.to_set().contains(kv) implies self@.dom().contains(
                kv,
            ) by {
                let n = choose|n: int| 0 <= n < keys.len() && #[trigger] keys[n] == kv;
                let p = self.all_pairs()[n];
                lemma_pairs_from_contains(self.buckets@, 0, p);
                let (t, j) = choose|t: int, j: int|
                    0 <= t < self.buckets@.len() && 0 <= j < self.buckets@[t]@.len()
                        && self.buckets@[t]@[j] == p;
                assert(route::<K>(self.buckets@.len() as int, kv) == t);
                lemma_find_key_exists(self.buckets@[t]@, kv);
            }
        }
        keys.unique_seq_to_set();
    }
}

/// A read-only cursor over a map's stored pairs. It walks the buckets in
/// order and each bucket by position, skipping empty buckets, and borrows
/// the map for its whole life: the map cannot be mutated while a cursor is
/// live.
pub struct HashMapIter<'a, K, V> {
    hashmap_holder: &'a HashMap<K, V>,
    bucket_num: usize,
    item_num: usize,
}

impl<'a, K: MapKey, V> HashMapIter<'a, K, V> {
    /// The pairs not yet yielded, in the order they will come.
    pub closed spec fn remaining(self) -> Seq<(K, V)> {
        tail_pairs(self.hashmap_holder.buckets@, self.bucket_num as int, self.item_num as int)
    }

    /// The map this cursor traverses.
    pub closed spec fn source(self) -> &'a HashMap<K, V> {
        self.hashmap_holder
    }

    /// A live cursor: the map is well-formed and the position is in bounds.
    pub closed spec fn valid(self) -> bool {
        &&& self.hashmap_holder.wf()
        &&& self.bucket_num as int <= self.hashmap_holder.buckets@.len()
        &&& ((self.bucket_num as int) < self.hashmap_holder.buckets@.len()
            ==> self.item_num as int <= self.hashmap_holder.buckets@[self.bucket_num as int]@.len())
    }

    /// Yields a reference to the next stored pair, or nothing once every
    /// pair has been yielded. On a map with zero buckets it yields nothing
    /// rather than fault.
    pub fn next(&mut self) -> (r: Option<&'a (K, V)>)
        requires
            old(self).valid(),
        ensures
            final(self).valid(),
            final(self).source() == old(self).source(),
            match r {
                Some(p) => old(self).remaining().len() > 0 && *p == old(self).remaining()[0]
                    && final(self).remaining() == old(self).remaining().drop_first(),
                None => old(self).remaining().len() == 0 && final(self).remaining().len() == 0,
            },
    {
        let m = self.hashmap_holder;
        let ghost bs = m.buckets@;
        while self.bucket_num < m.buckets.len() && self.item_num >= m.buckets[self.bucket_num].len()
            invariant
                self.hashmap_holder == m,
                bs == m.buckets@,
                self.bucket_num as int <= bs.len(),
                (self.bucket_num as int) < bs.len() ==> self.item_num as int
                    <= bs[self.bucket_num as int]@.len(),
                tail_pairs(bs, self.bucket_num as int, self.item_num as int) == tail_pairs(
                    bs,
                    old(self).bucket_num as int,
                    old(self).item_num as int,
                ),
            decreases bs.len() - self.bucket_num,
        {
            proof {
                let i = self.bucket_num as int;
                let j = self.item_num as int;
                assert(bs[i]@.skip(j) =~= Seq::<(K, V)>::empty());
                assert(tail_pairs(bs, i, j) =~= pairs_from(bs, i + 1));
                if i + 1 < bs.len() {
                    assert(bs[i + 1]@.skip(0) =~= bs[i + 1]@);
                }
                assert(tail_pairs(bs, i + 1, 0) =~= pairs_from(bs, i + 1));
            }
            self.item_num = 0;
            self.bucket_num = self.bucket_num + 1;
        }
        if self.bucket_num >= m.buckets.len() {
            return None;
        }
        let p = &m.buckets[self.bucket_num][self.item_num];
        proof {
            let i = self.bucket_num as int;
            let j = self.item_num as int;
            assert(bs[i]@.skip(j)[0] == bs[i]@[j]);
            assert(tail_pairs(bs, i, j).len() > 0);
            assert(tail_pairs(bs, i, j).drop_first() =~= bs[i]@.skip(j + 1) + pairs_from(
                bs,
                i + 1,
            )) by {
                assert(bs[i]@.skip(j).drop_first() =~= bs[i]@.skip(j + 1));
            }
        }
        self.item_num = self.item_num + 1;
        Some(p)
    }
}

impl<K: MapKey, V> HashMap<K, V> {
    /// A fresh cursor over this map's pairs; a full traversal with it
    /// yields `self.all_pairs()`, every stored pair exactly once.
    pub fn iter(&self) -> (it: HashMapIter<'_, K, V>)
        requires
            self.wf(),
        ensures
            it.valid(),
            it.source() == self,
            it.remaining() == self.all_pairs(),
    {
        let it = HashMapIter { hashmap_holder: self, bucket_num: 0, item_num: 0 };
        proof {
            if self.buckets@.len() > 0 {
                assert(self.buckets@[0]@.skip(0) =~= self.buckets@[0]@);
            }
            assert(it.remaining() =~= self.all_pairs());
        }
        it
    }

    /// Law: a full traversal yields every stored pair exactly once — as
    /// many pairs as the map has entries, with pairwise distinct keys, each
    /// pair present in the map, and every key of the map among them.
    pub proof fn lemma_traversal_complete(self)
        requires
            self.wf(),
        ensures
            self.all_pairs().len() == self@.len(),
            forall|a: int, b: int|
                0 <= a < b < self.all_pairs().len() ==> (#[trigger] self.all_pairs()[a]).0@ != (
                #[trigger] self.all_pairs()[b]).0@,
            forall|n: int|
                0 <= n < self.all_pairs().len() ==> self@.contains_key(
                    (#[trigger] self.all_pairs()[n]).0@,
                ) && self@[self.all_pairs()[n].0@] == self.all_pairs()[n].1,
            forall|kv: <K as View>::V|
                self@.contains_key(kv) ==> exists|n: int|
                    0 <= n < self.all_pairs().len() && (#[trigger] self.all_pairs()[n]).0@ == kv,
    {
        self.lemma_view_len();
        lemma_pairs_from_keys_distinct(self.buckets@, 0);
        let keys = self.all_pairs().map_values(|p: (K, V)| p.0@);
        assert forall|a: int, b: int|
            0 <= a < b < self.all_pairs().len() implies (#[trigger] self.all_pairs()[a]).0@ != (
        #[trigger] self.all_pairs()[b]).0@ by {
            assert(keys[a] == self.all_pairs()[a].0@);
            assert(keys[b] == self.all_pairs()[b].0@);
        }
        assert forall|n: int| 0 <= n < self.all_pairs().len() implies self@.contains_key(
            (#[trigger] self.all_pairs()[n]).0@,
        ) && self@[self.all_pairs()[n].0@] == self.all_pairs()[n].1 by {
            let p = self.all_pairs()[n];
            lemma_pairs_from_contains(self.buckets@, 0, p);
            assert(self.all_pairs().contains(p));
            let (t, j) = choose|t: int, j: int|
                0 <= t < self.buckets@.len() && 0 <= j < self.buckets@[t]@.len()
                    && (#[trigger] self.buckets@[t]@[j]) == p;
            assert(route::<K>(self.buckets@.len() as int, p.0@) == t);
            lemma_find_key_is(self.buckets@[t]@, p.0@);
        }
        assert forall|kv: <K as View>::V| self@.contains_key(kv) implies exists|n: int|
            0 <= n < self.all_pairs().len() && (#[trigger] self.all_pairs()[n]).0@ == kv by {
            let t = route::<K>(self.buckets@.len() as int, kv);
            assert(self.buckets.len() == self.buckets@.len());
            lemma_route_in_range::<K>(self.buckets@.len() as int, kv);
            lemma_find_key_is(self.buckets@[t]@, kv);
            let j = choose|j: int|
                0 <= j < self.buckets@[t]@.len() && (#[trigger] self.buckets@[t]@[j]).0@ == kv;
            let p = self.buckets@[t]@[j];
            lemma_pairs_from_contains(self.buckets@, 0, p);
            assert(self.all_pairs().contains(p));
            let n = choose|n: int|
                0 <= n < self.all_pairs().len() && #[trigger] self.all_pairs()[n] == p;
            assert(self.all_pairs()[n].0@ == kv);
        }
    }

    /// Law: the entry count counts distinct keys — inserting under an
    /// existing key leaves it unchanged, inserting a fresh key grows it by
    /// exactly one.
    pub proof fn lemma_insert_len(m: Map<<K as View>::V, V>, kv: <K as View>::V, v: V)
        requires
            m.dom().finite(),
        ensures
            m.contains_key(kv) ==> m.insert(kv, v).len() == m.len(),
            !m.contains_key(kv) ==> m.insert(kv, v).len() == m.len() + 1,
    {
        assert(m.insert(kv, v).dom() =~= m.dom().insert(kv));
        vstd::set::axiom_set_insert_len(m.dom(), kv);
        if m.contains_key(kv) {
            assert(m.dom().insert(kv) =~= m.dom());
        }
    }

    /// Law: after an insert the inserted key is bound to the new value, and
    /// every other key is bound exactly as before.
    pub proof fn lemma_insert_get(m: Map<<K as View>::V, V>, kv: <K as View>::V, v: V)
        ensures
            m.insert(kv, v).contains_key(kv),
            m.insert(kv, v)[kv] == v,
            forall|other: <K as View>::V|
                other != kv ==> #[trigger] m.insert(kv, v).contains_key(other)
                    == m.contains_key(other),
            forall|other: <K as View>::V|
                other != kv && m.contains_key(other)
                    ==> #[trigger] m.insert(kv, v)[other] == m[other],
    {
    }

    /// Law: after a removal the key is absent; removing an absent key
    /// changes nothing, removing a present key shrinks the entry count by
    /// exactly one and leaves every other binding in place.
    pub proof fn lemma_remove_get(m: Map<<K as View>::V, V>, kv: <K as View>::V)
        requires
            m.dom().finite(),
        ensures
            !m.remove(kv).contains_key(kv),
            m.contains_key(kv) ==> m.remove(kv).len() + 1 == m.len(),
            !m.contains_key(kv) ==> m.remove(kv) == m,
            forall|other: <K as View>::V|
                other != kv ==> #[trigger] m.remove(kv).contains_key(other)
                    == m.contains_key(other),
            forall|other: <K as View>::V|
                other != kv && m.contains_key(other) ==> #[trigger] m.remove(kv)[other] == m[other],
    {
        assert(m.remove(kv).dom() =~= m.dom().remove(kv));
        vstd::set::axiom_set_remove_len(m.dom(), kv);
        if !m.contains_key(kv) {
            assert(m.remove(kv) =~= m);
        }
    }

    /// Law: the empty map binds no key at all.
    pub proof fn lemma_empty_absent(kv: <K as View>::V)
        ensures
            !Map::<<K as View>::V, V>::empty().contains_key(kv),
    {
    }
}

} // verus!
