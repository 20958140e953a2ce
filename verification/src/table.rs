//! Specification of a bucket table: a sequence of buckets, each a sequence
//! of key-value pairs, with keys routed to buckets by hash. These spec
//! functions and lemmas describe the table independently of the executable
//! container that maintains one.

use crate::key::MapKey;
use vstd::prelude::*;

verus! {

/// The first value stored under key view `kv` in bucket `b`, if any.
pub open spec fn find_key<K: View, V>(b: Seq<(K, V)>, kv: K::V) -> Option<V>
    decreases b.len(),
{
    if b.len() == 0 {
        None
    } else if b[0].0@ == kv {
        Some(b[0].1)
    } else {
        find_key(b.drop_first(), kv)
    }
}

/// No two pairs of bucket `b` share a key view.
pub open spec fn distinct_keys<K: View, V>(b: Seq<(K, V)>) -> bool {
    forall|j1: int, j2: int|
        0 <= j1 < j2 < b.len() ==> b[j1].0@ != b[j2].0@
}

/// The bucket index a key view is routed to in a table of `n` buckets.
pub open spec fn route<K: MapKey>(n: int, kv: K::V) -> int {
    (K::hash_spec(kv) % (n as u64)) as int
}

/// All pairs of the buckets from index `i` on, in bucket-then-position order.
pub open spec fn pairs_from<K, V>(bs: Seq<Vec<(K, V)>>, i: int) -> Seq<(K, V)>
    decreases bs.len() - i,
{
    if i < 0 || i >= bs.len() {
        Seq::empty()
    } else {
        bs[i]@ + pairs_from(bs, i + 1)
    }
}

/// The pairs a traversal standing at bucket `i`, position `j` has yet to
/// yield: the rest of bucket `i`, then every later bucket.
pub open spec fn tail_pairs<K, V>(bs: Seq<Vec<(K, V)>>, i: int, j: int) -> Seq<(K, V)> {
    if 0 <= i < bs.len() {
        bs[i]@.skip(j) + pairs_from(bs, i + 1)
    } else {
        Seq::empty()
    }
}

/// A well-formed table: every bucket holds pairwise distinct keys, and every
/// pair sits in the bucket its key is routed to.
pub open spec fn table_wf<K: MapKey, V>(bs: Seq<Vec<(K, V)>>) -> bool {
    &&& forall|i: int| 0 <= i < bs.len() ==> distinct_keys(#[trigger] bs[i]@)
    &&& forall|i: int, j: int|
        0 <= i < bs.len() && 0 <= j < bs[i]@.len() ==> route::<K>(
            bs.len() as int,
            (#[trigger] bs[i]@[j]).0@,
        ) == i
}

/// The association a table represents: each key view maps to the value found
/// in the bucket the key routes to.
pub open spec fn table_view<K: MapKey, V>(bs: Seq<Vec<(K, V)>>) -> Map<K::V, V> {
    Map::new(
        |kv: K::V| bs.len() > 0 && find_key(bs[route::<K>(bs.len() as int, kv)]@, kv) is Some,
        |kv: K::V| find_key(bs[route::<K>(bs.len() as int, kv)]@, kv)->Some_0,
    )
}

/// Routing lands inside the table whenever the table has a bucket.
pub proof fn lemma_route_in_range<K: MapKey>(n: int, kv: K::V)
    requires
        0 < n <= u64::MAX,
    ensures
        0 <= route::<K>(n, kv) < n,
{
    let m = n as u64;
    assert(K::hash_spec(kv) % m < m);
}

/// `find_key` succeeds exactly when some pair of the bucket has the key.
pub proof fn lemma_find_key_exists<K: View, V>(b: Seq<(K, V)>, kv: K::V)
    ensures
        (find_key(b, kv) is Some) <==> exists|j: int| 0 <= j < b.len() && b[j].0@ == kv,
    decreases b.len(),
{
    if b.len() > 0 {
        lemma_find_key_exists(b.drop_first(), kv);
        if b[0].0@ != kv {
            assert forall|j: int| 0 <= j < b.len() && b[j].0@ == kv implies exists|j2: int|
                0 <= j2 < b.drop_first().len() && b.drop_first()[j2].0@ == kv by {
                assert(b.drop_first()[j - 1] == b[j]);
            }
            assert forall|j2: int|
                0 <= j2 < b.drop_first().len() && b.drop_first()[j2].0@ == kv implies exists|
                j: int,
            | 0 <= j < b.len() && b[j].0@ == kv by {
                assert(b[j2 + 1] == b.drop_first()[j2]);
            }
        }
    }
}

/// In a bucket with distinct keys, `find_key` returns the value of the one
/// pair holding the key.
pub proof fn lemma_find_key_unique<K: View, V>(b: Seq<(K, V)>, kv: K::V, j: int)
    requires
        distinct_keys(b),
        0 <= j < b.len(),
        b[j].0@ == kv,
    ensures
        find_key(b, kv) == Some(b[j].1),
    decreases b.len(),
{
    if j == 0 {
    } else {
        assert(b[0].0@ != kv);
        assert(b.drop_first()[j - 1] == b[j]);
        assert(distinct_keys(b.drop_first())) by {
            assert forall|j1: int, j2: int|
                0 <= j1 < j2 < b.drop_first().len() implies b.drop_first()[j1].0@
                != b.drop_first()[j2].0@ by {
                assert(b.drop_first()[j1] == b[j1 + 1]);
                assert(b.drop_first()[j2] == b[j2 + 1]);
            }
        }
        lemma_find_key_unique(b.drop_first(), kv, j - 1);
    }
}

/// In a bucket with distinct keys, `find_key` succeeds exactly on the keys
/// the bucket holds, and returns the value of the pair holding the key.
pub proof fn lemma_find_key_is<K: View, V>(b: Seq<(K, V)>, kv: K::V)
    requires
        distinct_keys(b),
    ensures
        (find_key(b, kv) is Some) <==> exists|j: int|
            0 <= j < b.len() && (#[trigger] b[j]).0@ == kv,
        forall|j: int|
            0 <= j < b.len() && (#[trigger] b[j]).0@ == kv ==> find_key(b, kv) == Some(b[j].1),
{
    lemma_find_key_exists(b, kv);
    assert forall|j: int| 0 <= j < b.len() && (#[trigger] b[j]).0@ == kv implies find_key(b, kv)
        == Some(b[j].1) by {
        lemma_find_key_unique(b, kv, j);
    }
}

/// A range of empty buckets contributes no pairs.
pub proof fn lemma_pairs_from_all_empty<K, V>(bs: Seq<Vec<(K, V)>>, i: int)
    requires
        forall|t: int| i <= t < bs.len() ==> (#[trigger] bs[t])@.len() == 0,
    ensures
        pairs_from(bs, i).len() == 0,
    decreases bs.len() - i,
{
    if 0 <= i < bs.len() {
        lemma_pairs_from_all_empty(bs, i + 1);
    }
}

/// A pair occurs among `pairs_from(bs, i)` exactly when some bucket at or
/// after `i` holds it.
pub proof fn lemma_pairs_from_contains<K, V>(bs: Seq<Vec<(K, V)>>, i: int, p: (K, V))
    requires
        0 <= i,
    ensures
        pairs_from(bs, i).contains(p) <==> exists|t: int, j: int|
            i <= t < bs.len() && 0 <= j < bs[t]@.len() && (#[trigger] bs[t]@[j]) == p,
    decreases bs.len() - i,
{
    if 0 <= i < bs.len() {
        lemma_pairs_from_contains(bs, i + 1, p);
        assert(pairs_from(bs, i) == bs[i]@ + pairs_from(bs, i + 1));
        if pairs_from(bs, i).contains(p) {
            let n = choose|n: int|
                0 <= n < pairs_from(bs, i).len() && #[trigger] pairs_from(bs, i)[n] == p;
            if n < bs[i]@.len() {
                assert(bs[i]@[n] == p);
            } else {
                assert(pairs_from(bs, i + 1)[n - bs[i]@.len()] == p);
                assert(pairs_from(bs, i + 1).contains(p));
            }
            assert(exists|t: int, j: int|
                i <= t < bs.len() && 0 <= j < bs[t]@.len() && (#[trigger] bs[t]@[j]) == p);
        }
        if exists|t: int, j: int|
            i <= t < bs.len() && 0 <= j < bs[t]@.len() && (#[trigger] bs[t]@[j]) == p {
            let (t, j) = choose|t: int, j: int|
                i <= t < bs.len() && 0 <= j < bs[t]@.len() && (#[trigger] bs[t]@[j]) == p;
            if t == i {
                assert(pairs_from(bs, i)[j] == p);
                assert(pairs_from(bs, i).contains(p));
            } else {
                assert(exists|t2: int, j2: int|
                    i + 1 <= t2 < bs.len() && 0 <= j2 < bs[t2]@.len() && (#[trigger] bs[t2]@[j2])
                        == p);
                let n = choose|n: int|
                    0 <= n < pairs_from(bs, i + 1).len() && #[trigger] pairs_from(bs, i + 1)[n]
                        == p;
                assert(pairs_from(bs, i)[bs[i]@.len() + n] == p);
                assert(pairs_from(bs, i).contains(p));
            }
        }
    }
}

/// In a well-formed table, the keys of the pairs from index `i` on are
/// pairwise distinct: within a bucket by the bucket's own distinctness, and
/// across buckets because a key is routed to exactly one bucket.
pub proof fn lemma_pairs_from_keys_distinct<K: MapKey, V>(bs: Seq<Vec<(K, V)>>, i: int)
    requires
        table_wf(bs),
    ensures
        pairs_from(bs, i).map_values(|p: (K, V)| p.0@).no_duplicates(),
    decreases bs.len() - i,
{
    if 0 <= i < bs.len() {
        lemma_pairs_from_keys_distinct(bs, i + 1);
        let cur = bs[i]@;
        let rest = pairs_from(bs, i + 1);
        let keys = pairs_from(bs, i).map_values(|p: (K, V)| p.0@);
        let rest_keys = rest.map_values(|p: (K, V)| p.0@);
        assert forall|a: int, b: int| 0 <= a < b < keys.len() implies keys[a] != keys[b] by {
            if b < cur.len() {
                assert(distinct_keys(cur));
            } else if a >= cur.len() {
                assert(rest_keys[a - cur.len()] != rest_keys[b - cur.len()]);
            } else {
                // `a` indexes the current bucket, `b` a later one: the two
                // keys route to different buckets, so they differ.
                let pb = rest[b - cur.len()];
                assert(rest.contains(pb));
                lemma_pairs_from_contains(bs, i + 1, pb);
                let (t, j) = choose|t: int, j: int|
                    i + 1 <= t < bs.len() && 0 <= j < bs[t]@.len() && bs[t]@[j] == pb;
                assert(route::<K>(bs.len() as int, cur[a].0@) == i);
                assert(route::<K>(bs.len() as int, pb.0@) == t);
            }
        }
    }
}

/// Replacing bucket `t` changes the pair count by the difference in bucket
/// lengths, and leaves the pairs of every other bucket in place.
pub proof fn lemma_pairs_from_update_len<K, V>(
    bs: Seq<Vec<(K, V)>>,
    t: int,
    nb: Vec<(K, V)>,
    i: int,
)
    requires
        0 <= t < bs.len(),
    ensures
        0 <= i <= t ==> pairs_from(bs.update(t, nb), i).len() == pairs_from(bs, i).len() + nb@.len()
            - bs[t]@.len(),
        i > t ==> pairs_from(bs.update(t, nb), i) == pairs_from(bs, i),
    decreases bs.len() - i,
{
    let upd = bs.update(t, nb);
    if 0 <= i < bs.len() {
        lemma_pairs_from_update_len(bs, t, nb, i + 1);
        assert(pairs_from(upd, i) == upd[i]@ + pairs_from(upd, i + 1));
        assert(pairs_from(bs, i) == bs[i]@ + pairs_from(bs, i + 1));
        if i > t {
            assert(upd[i] == bs[i]);
            assert(pairs_from(upd, i) =~= pairs_from(bs, i));
        } else if i == t {
            assert(upd[i] == nb);
        } else {
            assert(upd[i] == bs[i]);
        }
    }
}

} // verus!
