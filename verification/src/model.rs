//! The mathematical model of the table: what a sequence of buckets holds,
//! read as a finite map from key views to values, together with the
//! well-formedness conditions the table maintains and the lemmas that
//! connect single-bucket reasoning to the whole map.

use vstd::prelude::*;
use crate::keys::TableKey;

verus! {

/// The map a single bucket denotes: later entries win, though a
/// well-formed bucket never holds two entries with one key view.
pub open spec fn bucket_map<K: TableKey, V>(b: Seq<(K, V)>) -> Map<K::V, V>
    decreases b.len(),
{
    if b.len() == 0 {
        Map::empty()
    } else {
        bucket_map(b.drop_last()).insert(b.last().0@, b.last().1)
    }
}

/// Whether some entry of the bucket has key view `kv`.
pub open spec fn bucket_contains_key<K: TableKey, V>(b: Seq<(K, V)>, kv: K::V) -> bool {
    exists|j: int| 0 <= j < b.len() && b[j].0@ == kv
}

/// No two entries of the bucket share a key view.
pub open spec fn bucket_distinct<K: TableKey, V>(b: Seq<(K, V)>) -> bool {
    forall|j1: int, j2: int| 0 <= j1 < j2 < b.len() ==> b[j1].0@ != b[j2].0@
}

/// The bucket a key view is routed to among `n` buckets.
pub open spec fn bucket_index_of<K: TableKey>(kv: K::V, n: int) -> int {
    K::view_hash(kv) as int % n
}

/// Every entry of every bucket sits in the bucket its hash selects
/// among `n` buckets.
pub open spec fn buckets_routed<K: TableKey, V>(bs: Seq<Seq<(K, V)>>, n: int) -> bool {
    forall|i: int, j: int|
        0 <= i < bs.len() && 0 <= j < bs[i].len() ==> bucket_index_of::<K>(
            bs[i][j].0@,
            n,
        ) == i
}

/// Every bucket is free of duplicate key views.
pub open spec fn buckets_distinct<K: TableKey, V>(bs: Seq<Seq<(K, V)>>) -> bool {
    forall|i: int| 0 <= i < bs.len() ==> bucket_distinct(#[trigger] bs[i])
}

/// A well-formed bucket sequence: duplicate-free buckets, every entry
/// reachable by hashing its key modulo the bucket count.
pub open spec fn buckets_wf<K: TableKey, V>(bs: Seq<Seq<(K, V)>>) -> bool {
    buckets_distinct(bs) && buckets_routed(bs, bs.len() as int)
}

/// The map the whole bucket sequence denotes.
pub open spec fn table_map<K: TableKey, V>(bs: Seq<Seq<(K, V)>>) -> Map<K::V, V>
    decreases bs.len(),
{
    if bs.len() == 0 {
        Map::empty()
    } else {
        table_map(bs.drop_last()).union_prefer_right(bucket_map(bs.last()))
    }
}

/// The number of entries over all buckets.
pub open spec fn total_entries<K: TableKey, V>(bs: Seq<Seq<(K, V)>>) -> nat
    decreases bs.len(),
{
    if bs.len() == 0 {
        0
    } else {
        total_entries(bs.drop_last()) + bs.last().len()
    }
}

/// A bucket's map has exactly the key views of its entries.
pub proof fn lemma_bucket_map_contains<K: TableKey, V>(b: Seq<(K, V)>, kv: K::V)
    ensures
        bucket_map(b).contains_key(kv) == bucket_contains_key(b, kv),
    decreases b.len(),
{
    if b.len() == 0 {
    } else {
        lemma_bucket_map_contains(b.drop_last(), kv);
        if b.last().0@ == kv {
            assert(b[b.len() - 1].0@ == kv);
        } else {
            if bucket_contains_key(b, kv) {
                let j = choose|j: int| 0 <= j < b.len() && b[j].0@ == kv;
                assert(b.drop_last()[j] == b[j]);
            }
            if bucket_contains_key(b.drop_last(), kv) {
                let j = choose|j: int| 0 <= j < b.drop_last().len() && b.drop_last()[j].0@ == kv;
                assert(b[j] == b.drop_last()[j]);
            }
        }
    }
}

/// In a duplicate-free bucket, the entry at `j` gives the map's value
/// for its key view.
pub proof fn lemma_bucket_map_get<K: TableKey, V>(b: Seq<(K, V)>, kv: K::V, j: int)
    requires
        bucket_distinct(b),
        0 <= j < b.len(),
        b[j].0@ == kv,
    ensures
        bucket_map(b).contains_key(kv),
        bucket_map(b)[kv] == b[j].1,
    decreases b.len(),
{
    if j == b.len() - 1 {
    } else {
        assert(b.drop_last()[j] == b[j]);
        lemma_bucket_map_get(b.drop_last(), kv, j);
        assert(b.last().0@ != kv);
    }
}

/// A duplicate-free bucket's map is finite, with one key per entry.
pub proof fn lemma_bucket_map_len<K: TableKey, V>(b: Seq<(K, V)>)
    requires
        bucket_distinct(b),
    ensures
        bucket_map(b).dom().finite(),
        bucket_map(b).dom().len() == b.len(),
    decreases b.len(),
{
    broadcast use vstd::set::axiom_set_insert_len;

    if b.len() == 0 {
    } else {
        lemma_bucket_map_len(b.drop_last());
        lemma_bucket_map_contains(b.drop_last(), b.last().0@);
        assert(!bucket_contains_key(b.drop_last(), b.last().0@)) by {
            if bucket_contains_key(b.drop_last(), b.last().0@) {
                let j = choose|j: int|
                    0 <= j < b.drop_last().len() && b.drop_last()[j].0@ == b.last().0@;
                assert(b[j] == b.drop_last()[j]);
                assert(b[j].0@ == b[b.len() - 1].0@);
            }
        }
    }
}

/// The table's map holds a key view exactly when some bucket does.
pub proof fn lemma_table_map_contains<K: TableKey, V>(bs: Seq<Seq<(K, V)>>, kv: K::V)
    ensures
        table_map(bs).contains_key(kv) == exists|i: int|
            0 <= i < bs.len() && bucket_contains_key(#[trigger] bs[i], kv),
    decreases bs.len(),
{
    if bs.len() == 0 {
    } else {
        lemma_table_map_contains(bs.drop_last(), kv);
        lemma_bucket_map_contains(bs.last(), kv);
        if table_map(bs).contains_key(kv) {
            if bucket_map(bs.last()).contains_key(kv) {
                assert(bucket_contains_key(bs[bs.len() - 1], kv));
            } else {
                let i = choose|i: int|
                    0 <= i < bs.drop_last().len() && bucket_contains_key(
                        #[trigger] bs.drop_last()[i],
                        kv,
                    );
                assert(bs[i] == bs.drop_last()[i]);
            }
        }
        if exists|i: int| 0 <= i < bs.len() && bucket_contains_key(#[trigger] bs[i], kv) {
            let i = choose|i: int| 0 <= i < bs.len() && bucket_contains_key(#[trigger] bs[i], kv);
            if i == bs.len() - 1 {
                assert(bucket_map(bs.last()).contains_key(kv));
            } else {
                assert(bs.drop_last()[i] == bs[i]);
            }
        }
    }
}

/// When a key view can only sit in bucket `i`, the table's map agrees
/// with that single bucket, both on membership and on the value.
pub proof fn lemma_table_map_at_bucket<K: TableKey, V>(bs: Seq<Seq<(K, V)>>, kv: K::V, i: int)
    requires
        0 <= i < bs.len(),
        forall|i2: int|
            0 <= i2 < bs.len() && i2 != i ==> !bucket_contains_key(#[trigger] bs[i2], kv),
    ensures
        table_map(bs).contains_key(kv) == bucket_map(bs[i]).contains_key(kv),
        bucket_map(bs[i]).contains_key(kv) ==> table_map(bs)[kv] == bucket_map(bs[i])[kv],
    decreases bs.len(),
{
    if i == bs.len() - 1 {
        lemma_table_map_contains(bs.drop_last(), kv);
        assert(forall|i2: int|
            0 <= i2 < bs.drop_last().len() ==> bs.drop_last()[i2] == bs[i2]);
        assert(!table_map(bs.drop_last()).contains_key(kv));
    } else {
        assert(bs.drop_last()[i] == bs[i]);
        assert(forall|i2: int|
            0 <= i2 < bs.drop_last().len() && i2 != i ==> bs.drop_last()[i2] == bs[i2]);
        lemma_table_map_at_bucket(bs.drop_last(), kv, i);
        lemma_bucket_map_contains(bs.last(), kv);
        assert(!bucket_contains_key(bs[bs.len() - 1], kv));
    }
}

/// A routed, duplicate-free bucket sequence denotes a finite map with
/// exactly one key per stored entry.
pub proof fn lemma_table_map_len<K: TableKey, V>(bs: Seq<Seq<(K, V)>>, n: int)
    requires
        buckets_distinct(bs),
        buckets_routed(bs, n),
    ensures
        table_map(bs).dom().finite(),
        table_map(bs).dom().len() == total_entries(bs),
    decreases bs.len(),
{
    if bs.len() == 0 {
        assert(table_map(bs).dom() =~= Set::<K::V>::empty());
    } else {
        let prefix = bs.drop_last();
        let last = bs.last();
        assert(forall|i: int| 0 <= i < prefix.len() ==> prefix[i] == bs[i]);
        lemma_table_map_len(prefix, n);
        lemma_bucket_map_len(last);
        assert(table_map(prefix).dom().disjoint(bucket_map(last).dom())) by {
            assert forall|kv: K::V|
                table_map(prefix).contains_key(kv) implies !bucket_map(last).contains_key(kv) by {
                lemma_table_map_contains(prefix, kv);
                lemma_bucket_map_contains(last, kv);
                let i = choose|i: int|
                    0 <= i < prefix.len() && bucket_contains_key(#[trigger] prefix[i], kv);
                let j = choose|j: int| 0 <= j < prefix[i].len() && prefix[i][j].0@ == kv;
                assert(bucket_index_of::<K>(kv, n) == i);
                if bucket_contains_key(last, kv) {
                    let j2 = choose|j2: int| 0 <= j2 < last.len() && last[j2].0@ == kv;
                    assert(bs[bs.len() - 1][j2].0@ == kv);
                    assert(bucket_index_of::<K>(kv, n) == bs.len() - 1);
                }
            }
        }
        vstd::map_lib::lemma_disjoint_union_size(table_map(prefix), bucket_map(last));
        vstd::map_lib::lemma_union_dom(table_map(prefix), bucket_map(last));
        assert(table_map(bs).dom().finite()) by {
            vstd::set::axiom_set_union_finite(table_map(prefix).dom(), bucket_map(last).dom());
        }
    }
}

/// Appending an entry to a bucket extends that bucket's map by its key.
pub proof fn lemma_bucket_map_push<K: TableKey, V>(b: Seq<(K, V)>, e: (K, V))
    ensures
        bucket_map(b.push(e)) == bucket_map(b).insert(e.0@, e.1),
{
    assert(b.push(e).drop_last() =~= b);
    assert(b.push(e).last() == e);
}

/// Swap-removing the entry at `j` from a duplicate-free bucket removes
/// exactly its key view from the bucket's map.
pub proof fn lemma_bucket_swap_remove<K: TableKey, V>(b: Seq<(K, V)>, j: int)
    requires
        bucket_distinct(b),
        0 <= j < b.len(),
    ensures
        bucket_distinct(b.update(j, b.last()).drop_last()),
        bucket_map(b.update(j, b.last()).drop_last()) == bucket_map(b).remove(b[j].0@),
        forall|kv: K::V|
            bucket_contains_key(b.update(j, b.last()).drop_last(), kv) == (bucket_contains_key(
                b,
                kv,
            ) && kv != b[j].0@),
{
    let kv = b[j].0@;
    let b2 = b.update(j, b.last()).drop_last();
    assert(b2.len() == b.len() - 1);
    assert(forall|i: int| 0 <= i < b2.len() && i != j ==> b2[i] == b[i]);
    assert(j < b2.len() ==> b2[j] == b[b.len() - 1]);
    assert(bucket_distinct(b2)) by {
        assert forall|j1: int, j2: int| 0 <= j1 < j2 < b2.len() implies b2[j1].0@ != b2[j2].0@ by {
            if j1 == j {
                assert(b2[j1] == b[b.len() - 1]);
            } else if j2 == j {
                assert(b2[j2] == b[b.len() - 1]);
            }
        }
    }
    assert forall|kv2: K::V|
        bucket_contains_key(b2, kv2) == (bucket_contains_key(b, kv2) && kv2 != kv) by {
        if bucket_contains_key(b2, kv2) {
            let i = choose|i: int| 0 <= i < b2.len() && b2[i].0@ == kv2;
            if i == j {
                assert(b[b.len() - 1].0@ == kv2);
                assert(kv2 != kv);
            } else {
                assert(b[i].0@ == kv2);
                assert(kv2 != kv);
            }
        }
        if bucket_contains_key(b, kv2) && kv2 != kv {
            let i = choose|i: int| 0 <= i < b.len() && b[i].0@ == kv2;
            if i == b.len() - 1 {
                if j < b2.len() {
                    assert(b2[j].0@ == kv2);
                } else {
                    assert(j == b.len() - 1);
                    assert(b[j].0@ == kv2);
                }
            } else {
                assert(b2[i].0@ == kv2);
            }
        }
    }
    assert(bucket_map(b2) =~= bucket_map(b).remove(kv)) by {
        assert forall|kv2: K::V| true implies #[trigger] bucket_map(b2).contains_key(kv2)
            == bucket_map(b).remove(kv).contains_key(kv2) && (bucket_map(b2).contains_key(kv2)
            ==> bucket_map(b2)[kv2] == bucket_map(b).remove(kv)[kv2]) by {
            lemma_bucket_map_contains(b2, kv2);
            lemma_bucket_map_contains(b, kv2);
            if bucket_contains_key(b2, kv2) {
                let i = choose|i: int| 0 <= i < b2.len() && b2[i].0@ == kv2;
                lemma_bucket_map_get(b2, kv2, i);
                if i == j {
                    lemma_bucket_map_get(b, kv2, b.len() - 1);
                } else {
                    lemma_bucket_map_get(b, kv2, i);
                }
            }
        }
    }
}

/// The bucket count after one growth step: one bucket from none,
/// otherwise double.
pub open spec fn spec_grow_target(n: nat) -> nat {
    if n == 0 {
        1
    } else {
        2 * n
    }
}

/// Whether `n` is a power of two; bucket counts progress through 1, 2,
/// 4, 8 and so on.
pub open spec fn pow2_like(n: nat) -> bool
    decreases n,
{
    if n == 0 {
        false
    } else if n == 1 {
        true
    } else {
        n % 2 == 0 && pow2_like(n / 2)
    }
}

/// The bucket sequences a `Vec` of bucket `Vec`s abstracts to.
pub open spec fn vecs_view<K: TableKey, V>(bv: Seq<Vec<(K, V)>>) -> Seq<Seq<(K, V)>> {
    bv.map_values(|b: Vec<(K, V)>| b@)
}

/// In a well-formed bucket sequence, the whole table agrees with the
/// single bucket a key view is routed to.
pub proof fn lemma_table_map_route<K: TableKey, V>(bs: Seq<Seq<(K, V)>>, kv: K::V)
    requires
        buckets_wf(bs),
        bs.len() > 0,
    ensures
        0 <= bucket_index_of::<K>(kv, bs.len() as int) < bs.len(),
        table_map(bs).contains_key(kv) == bucket_map(
            bs[bucket_index_of::<K>(kv, bs.len() as int)],
        ).contains_key(kv),
        table_map(bs).contains_key(kv) ==> table_map(bs)[kv] == bucket_map(
            bs[bucket_index_of::<K>(kv, bs.len() as int)],
        )[kv],
{
    let n = bs.len() as int;
    let i = bucket_index_of::<K>(kv, n);
    assert(0 <= i < n) by {
        assert(K::view_hash(kv) as int % n < n);
    }
    assert forall|i2: int|
        0 <= i2 < bs.len() && i2 != i implies !bucket_contains_key(#[trigger] bs[i2], kv) by {
        if bucket_contains_key(bs[i2], kv) {
            let j = choose|j: int| 0 <= j < bs[i2].len() && bs[i2][j].0@ == kv;
            assert(bucket_index_of::<K>(bs[i2][j].0@, n) == i2);
        }
    }
    lemma_table_map_at_bucket(bs, kv, i);
}

/// Replacing one bucket changes the entry count by the two buckets'
/// difference in length.
pub proof fn lemma_total_entries_update<K: TableKey, V>(bs: Seq<Seq<(K, V)>>, i: int, b2: Seq<(K, V)>)
    requires
        0 <= i < bs.len(),
    ensures
        total_entries(bs.update(i, b2)) + bs[i].len() == total_entries(bs) + b2.len(),
    decreases bs.len(),
{
    let bs2 = bs.update(i, b2);
    if i == bs.len() - 1 {
        assert(bs2.drop_last() =~= bs.drop_last());
        assert(bs2.last() == b2);
    } else {
        assert(bs2.drop_last() =~= bs.drop_last().update(i, b2));
        assert(bs2.last() == bs.last());
        assert(bs.drop_last()[i] == bs[i]);
        lemma_total_entries_update(bs.drop_last(), i, b2);
    }
}

/// Appending an entry to the bucket its key is routed to inserts that
/// key into the table's map and keeps the sequence well-formed,
/// provided the key was absent.
pub proof fn lemma_table_map_update_push<K: TableKey, V>(bs: Seq<Seq<(K, V)>>, i: int, e: (K, V))
    requires
        buckets_wf(bs),
        0 <= i < bs.len(),
        bucket_index_of::<K>(e.0@, bs.len() as int) == i,
        !table_map(bs).contains_key(e.0@),
    ensures
        buckets_wf(bs.update(i, bs[i].push(e))),
        table_map(bs.update(i, bs[i].push(e))) == table_map(bs).insert(e.0@, e.1),
        total_entries(bs.update(i, bs[i].push(e))) == total_entries(bs) + 1,
{
    let n = bs.len() as int;
    let kv = e.0@;
    let b2 = bs[i].push(e);
    let bs2 = bs.update(i, b2);
    lemma_table_map_contains(bs, kv);
    assert(!bucket_contains_key(bs[i], kv));
    assert(bucket_distinct(b2)) by {
        assert forall|j1: int, j2: int| 0 <= j1 < j2 < b2.len() implies b2[j1].0@ != b2[j2].0@ by {
            if j2 == b2.len() - 1 {
                assert(b2[j1] == bs[i][j1]);
            }
        }
    }
    assert(buckets_wf(bs2)) by {
        assert forall|i2: int, j: int|
            0 <= i2 < bs2.len() && 0 <= j < bs2[i2].len() implies bucket_index_of::<K>(
            bs2[i2][j].0@,
            n,
        ) == i2 by {
            if i2 == i && j == b2.len() - 1 {
            } else if i2 == i {
                assert(bs2[i2][j] == bs[i][j]);
            } else {
                assert(bs2[i2][j] == bs[i2][j]);
            }
        }
        assert(forall|i2: int| 0 <= i2 < bs2.len() && i2 != i ==> bs2[i2] == bs[i2]);
    }
    lemma_bucket_map_push(bs[i], e);
    assert(table_map(bs2) =~= table_map(bs).insert(kv, e.1)) by {
        assert forall|kv2: K::V| true implies #[trigger] table_map(bs2).contains_key(kv2)
            == table_map(bs).insert(kv, e.1).contains_key(kv2) && (table_map(bs2).contains_key(kv2)
            ==> table_map(bs2)[kv2] == table_map(bs).insert(kv, e.1)[kv2]) by {
            lemma_table_map_route(bs, kv2);
            lemma_table_map_route(bs2, kv2);
            let i2 = bucket_index_of::<K>(kv2, n);
            if i2 != i {
                assert(bs2[i2] == bs[i2]);
            }
        }
    }
    lemma_total_entries_update(bs, i, b2);
}

/// Swap-removing the entry at `j` of bucket `i` removes exactly its key
/// view from the table's map and keeps the sequence well-formed.
pub proof fn lemma_table_map_update_swap_remove<K: TableKey, V>(bs: Seq<Seq<(K, V)>>, i: int, j: int)
    requires
        buckets_wf(bs),
        0 <= i < bs.len(),
        0 <= j < bs[i].len(),
    ensures
        buckets_wf(bs.update(i, bs[i].update(j, bs[i].last()).drop_last())),
        table_map(bs.update(i, bs[i].update(j, bs[i].last()).drop_last())) == table_map(bs).remove(
            bs[i][j].0@,
        ),
        total_entries(bs.update(i, bs[i].update(j, bs[i].last()).drop_last())) == total_entries(bs)
            - 1,
        table_map(bs).contains_key(bs[i][j].0@),
        table_map(bs)[bs[i][j].0@] == bs[i][j].1,
{
    let n = bs.len() as int;
    let kv = bs[i][j].0@;
    let b2 = bs[i].update(j, bs[i].last()).drop_last();
    let bs2 = bs.update(i, b2);
    lemma_bucket_swap_remove(bs[i], j);
    assert(buckets_wf(bs2)) by {
        assert forall|i2: int, j2: int|
            0 <= i2 < bs2.len() && 0 <= j2 < bs2[i2].len() implies bucket_index_of::<K>(
            bs2[i2][j2].0@,
            n,
        ) == i2 by {
            if i2 == i {
                if j2 == j && j < b2.len() {
                    assert(b2[j2] == bs[i][bs[i].len() - 1]);
                } else {
                    assert(b2[j2] == bs[i][j2]);
                }
            } else {
                assert(bs2[i2] == bs[i2]);
            }
        }
        assert(forall|i2: int| 0 <= i2 < bs2.len() && i2 != i ==> bs2[i2] == bs[i2]);
    }
    lemma_table_map_route(bs, kv);
    lemma_bucket_map_get(bs[i], kv, j);
    assert(table_map(bs2) =~= table_map(bs).remove(kv)) by {
        assert forall|kv2: K::V| true implies #[trigger] table_map(bs2).contains_key(kv2)
            == table_map(bs).remove(kv).contains_key(kv2) && (table_map(bs2).contains_key(kv2)
            ==> table_map(bs2)[kv2] == table_map(bs).remove(kv)[kv2]) by {
            lemma_table_map_route(bs, kv2);
            lemma_table_map_route(bs2, kv2);
            let i2 = bucket_index_of::<K>(kv2, n);
            if i2 != i {
                assert(bs2[i2] == bs[i2]);
            }
        }
    }
    lemma_total_entries_update(bs, i, b2);
}

/// A sequence of empty buckets denotes the empty map.
pub proof fn lemma_table_map_empty_buckets<K: TableKey, V>(bs: Seq<Seq<(K, V)>>)
    requires
        forall|i: int| 0 <= i < bs.len() ==> (#[trigger] bs[i]).len() == 0,
    ensures
        table_map(bs) == Map::<K::V, V>::empty(),
        total_entries(bs) == 0,
        buckets_wf(bs),
    decreases bs.len(),
{
    if bs.len() == 0 {
    } else {
        assert(forall|i: int| 0 <= i < bs.drop_last().len() ==> bs.drop_last()[i] == bs[i]);
        lemma_table_map_empty_buckets(bs.drop_last());
        assert(bucket_map(bs.last()) =~= Map::<K::V, V>::empty());
        assert(table_map(bs) =~= Map::<K::V, V>::empty());
    }
}

/// The total entry count is at least any single bucket's length.
pub proof fn lemma_total_entries_at_least<K: TableKey, V>(bs: Seq<Seq<(K, V)>>, i: int)
    requires
        0 <= i < bs.len(),
    ensures
        total_entries(bs) >= bs[i].len(),
    decreases bs.len(),
{
    if i == bs.len() - 1 {
    } else {
        assert(bs.drop_last()[i] == bs[i]);
        lemma_total_entries_at_least(bs.drop_last(), i);
    }
}

/// No two positions over all buckets hold one key view.
pub open spec fn entries_distinct<K: TableKey, V>(bs: Seq<Seq<(K, V)>>) -> bool {
    forall|i1: int, j1: int, i2: int, j2: int|
        0 <= i1 < bs.len() && 0 <= j1 < bs[i1].len() && 0 <= i2 < bs.len() && 0 <= j2
            < bs[i2].len() && (i1 != i2 || j1 != j2) ==> (#[trigger] bs[i1][j1]).0@ != (
        #[trigger] bs[i2][j2]).0@
}

/// A well-formed bucket sequence has globally distinct key views: equal
/// views hash alike and so land in one bucket, where duplicates are
/// barred.
pub proof fn lemma_wf_entries_distinct<K: TableKey, V>(bs: Seq<Seq<(K, V)>>)
    requires
        buckets_wf(bs),
    ensures
        entries_distinct(bs),
{
    assert forall|i1: int, j1: int, i2: int, j2: int|
        0 <= i1 < bs.len() && 0 <= j1 < bs[i1].len() && 0 <= i2 < bs.len() && 0 <= j2
            < bs[i2].len() && (i1 != i2 || j1 != j2) implies (#[trigger] bs[i1][j1]).0@ != (
    #[trigger] bs[i2][j2]).0@ by {
        if bs[i1][j1].0@ == bs[i2][j2].0@ {
            assert(bucket_index_of::<K>(bs[i1][j1].0@, bs.len() as int) == i1);
            assert(bucket_index_of::<K>(bs[i2][j2].0@, bs.len() as int) == i2);
            assert(bucket_distinct(bs[i1]));
        }
    }
}

/// The flattened entries are exactly the table's map: as many entries
/// as keys, each entry a live binding, each binding some entry.
pub proof fn lemma_table_map_flatten<K: TableKey, V>(bs: Seq<Seq<(K, V)>>)
    requires
        entries_distinct(bs),
    ensures
        bs.flatten_alt().len() == total_entries(bs),
        forall|j: int|
            0 <= j < bs.flatten_alt().len() ==> table_map(bs).contains_key(
                (#[trigger] bs.flatten_alt()[j]).0@,
            ) && table_map(bs)[bs.flatten_alt()[j].0@] == bs.flatten_alt()[j].1,
        forall|kv: K::V|
            #[trigger] table_map(bs).contains_key(kv) ==> exists|j: int|
                0 <= j < bs.flatten_alt().len() && (#[trigger] bs.flatten_alt()[j]).0@ == kv
                    && bs.flatten_alt()[j].1 == table_map(bs)[kv],
    decreases bs.len(),
{
    if bs.len() == 0 {
    } else {
        let prefix = bs.drop_last();
        let last = bs.last();
        let fp = prefix.flatten_alt();
        let f = bs.flatten_alt();
        assert(f == fp + last);
        assert(forall|i: int| 0 <= i < prefix.len() ==> prefix[i] == bs[i]);
        assert(entries_distinct(prefix));
        lemma_table_map_flatten(prefix);
        assert(bucket_distinct(last)) by {
            assert forall|j1: int, j2: int|
                0 <= j1 < j2 < last.len() implies last[j1].0@ != last[j2].0@ by {
                assert(bs[bs.len() - 1][j1].0@ != bs[bs.len() - 1][j2].0@);
            }
        }
        // A key view in the prefix's map never sits in the last bucket.
        assert forall|kv: K::V|
            table_map(prefix).contains_key(kv) implies !bucket_map(last).contains_key(kv) by {
            lemma_table_map_contains(prefix, kv);
            lemma_bucket_map_contains(last, kv);
            let i = choose|i: int|
                0 <= i < prefix.len() && bucket_contains_key(#[trigger] prefix[i], kv);
            let j = choose|j: int| 0 <= j < prefix[i].len() && prefix[i][j].0@ == kv;
            if bucket_contains_key(last, kv) {
                let j2 = choose|j2: int| 0 <= j2 < last.len() && last[j2].0@ == kv;
                assert(bs[i][j].0@ == bs[bs.len() - 1][j2].0@);
            }
        }
        assert forall|j: int|
            0 <= j < f.len() implies table_map(bs).contains_key((#[trigger] f[j]).0@)
            && table_map(bs)[f[j].0@] == f[j].1 by {
            if j < fp.len() {
                assert(f[j] == fp[j]);
            } else {
                assert(f[j] == last[j - fp.len()]);
                lemma_bucket_map_get(last, f[j].0@, j - fp.len());
            }
        }
        assert forall|kv: K::V| #[trigger] table_map(bs).contains_key(kv) implies exists|j: int|
            0 <= j < f.len() && (#[trigger] f[j]).0@ == kv && f[j].1 == table_map(bs)[kv] by {
            if bucket_map(last).contains_key(kv) {
                lemma_bucket_map_contains(last, kv);
                let j2 = choose|j2: int| 0 <= j2 < last.len() && last[j2].0@ == kv;
                lemma_bucket_map_get(last, kv, j2);
                assert(f[fp.len() + j2].0@ == kv && f[fp.len() + j2].1 == table_map(bs)[kv]);
            } else {
                assert(table_map(prefix).contains_key(kv));
                let j = choose|j: int|
                    0 <= j < fp.len() && (#[trigger] fp[j]).0@ == kv && fp[j].1 == table_map(
                        prefix,
                    )[kv];
                assert(f[j] == fp[j]);
            }
        }
    }
}

/// Moving one binding from the middle map of a three-way union into the
/// left map changes nothing, as long as the other maps lack its key.
pub proof fn lemma_shift_binding_left<A, B>(a: Map<A, B>, b: Map<A, B>, c: Map<A, B>, k: A, v: B)
    requires
        !b.contains_key(k),
        !c.contains_key(k),
    ensures
        a.insert(k, v).union_prefer_right(b).union_prefer_right(c) == a.union_prefer_right(
            b.insert(k, v),
        ).union_prefer_right(c),
{
    assert(a.insert(k, v).union_prefer_right(b).union_prefer_right(c) =~= a.union_prefer_right(
        b.insert(k, v),
    ).union_prefer_right(c));
}

} // verus!
