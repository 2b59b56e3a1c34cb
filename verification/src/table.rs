//! The hash table itself: a vector of buckets, each a vector of
//! key/value entries, with a live-entry count and growth logic, plus a
//! read-only iterator over its entries.

use vstd::prelude::*;
use vstd::pervasive::VecAdditionalExecFns;
use crate::keys::{EquivKey, TableKey};
use crate::model::{
    bucket_contains_key, bucket_distinct, bucket_index_of, bucket_map, buckets_distinct,
    buckets_routed, buckets_wf, pow2_like, spec_grow_target, table_map, total_entries, vecs_view,
    lemma_bucket_map_contains, lemma_bucket_map_get, lemma_shift_binding_left,
    lemma_table_map_contains, lemma_table_map_empty_buckets, lemma_table_map_flatten,
    lemma_table_map_len, lemma_table_map_route, lemma_table_map_update_push,
    lemma_table_map_update_swap_remove, lemma_total_entries_at_least, lemma_wf_entries_distinct,
};

verus! {

/// A hash table mapping keys to values, with collision resolution by
/// chaining and automatic doubling of the bucket count. Despite the
/// name, no insertion order is preserved or promised.
pub struct LinkedHashMap<K, V> {
    buckets: Vec<Vec<(K, V)>>,
    items: usize,
}

impl<K: TableKey, V> View for LinkedHashMap<K, V> {
    type V = Map<K::V, V>;

    /// The finite map from key views to values the table holds.
    closed spec fn view(&self) -> Map<K::V, V> {
        table_map(self.bseq())
    }
}

impl<K: TableKey, V> LinkedHashMap<K, V> {
    /// The abstract bucket layout.
    pub closed spec fn bseq(self) -> Seq<Seq<(K, V)>> {
        vecs_view(self.buckets@)
    }

    /// The current number of buckets.
    pub closed spec fn num_buckets(self) -> nat {
        self.buckets@.len()
    }

    /// The table's invariant: every entry sits in the bucket its hash
    /// selects, no key view occurs twice, the live count equals the
    /// number of stored entries, the load factor stays at most 3/4 up
    /// to the single just-inserted overshoot, and the bucket count,
    /// once nonzero, is a power of two.
    pub closed spec fn wf(self) -> bool {
        &&& buckets_wf(self.bseq())
        &&& self.items == total_entries(self.bseq())
        &&& (self.num_buckets() == 0 ==> self.items == 0)
        &&& (self.num_buckets() > 0 ==> self.items <= 3 * self.num_buckets() / 4 + 1)
        &&& (self.num_buckets() > 0 ==> pow2_like(self.num_buckets()))
    }

    /// Whether the next insertion will grow the table first: no buckets
    /// yet, or the live count exceeds 3/4 of the bucket count.
    pub open spec fn needs_grow(self) -> bool {
        self.num_buckets() == 0 || self@.len() > 3 * self.num_buckets() / 4
    }

    /// A well-formed table's map is finite, with as many keys as live
    /// entries.
    pub proof fn lemma_view_finite(self)
        requires
            self.wf(),
        ensures
            self@.dom().finite(),
            self@.len() <= usize::MAX,
    {
        lemma_table_map_len(self.bseq(), self.bseq().len() as int);
    }

    /// The load factor bound: once the table holds any bucket, the live
    /// count is at most 3/4 of the bucket count, plus the one entry a
    /// threshold insertion may have added.
    pub proof fn lemma_load_factor(self)
        requires
            self.wf(),
            self.num_buckets() > 0,
        ensures
            self@.len() <= 3 * self.num_buckets() / 4 + 1,
    {
        lemma_table_map_len(self.bseq(), self.bseq().len() as int);
    }

    /// The bucket count is 0 before the first growth and afterwards a
    /// power of two: growth starts at one bucket and doubles.
    pub proof fn lemma_bucket_count_power_of_two(self)
        requires
            self.wf(),
            self.num_buckets() > 0,
        ensures
            pow2_like(self.num_buckets()),
    {
    }

    /// Creates an empty table: no buckets, no entries, no allocation.
    pub fn new() -> (t: Self)
        ensures
            t.wf(),
            t@ == Map::<K::V, V>::empty(),
            t.num_buckets() == 0,
    {
        let t = Self { buckets: Vec::new(), items: 0 };
        proof {
            assert(t.bseq() =~= Seq::<Seq<(K, V)>>::empty());
        }
        t
    }

    /// The number of live entries.
    pub fn len(&self) -> (n: usize)
        requires
            self.wf(),
        ensures
            n == self@.len(),
    {
        proof {
            lemma_table_map_len(self.bseq(), self.bseq().len() as int);
        }
        self.items
    }

    /// Whether the table holds no entry.
    pub fn is_empty(&self) -> (r: bool)
        requires
            self.wf(),
        ensures
            r == (self@.len() == 0),
    {
        proof {
            lemma_table_map_len(self.bseq(), self.bseq().len() as int);
        }
        self.items == 0
    }

    /// The current number of buckets; 0 until a first insertion grows
    /// the table, afterwards always a power of two.
    pub fn bucket_count(&self) -> (n: usize)
        ensures
            n == self.num_buckets(),
    {
        self.buckets.len()
    }

    /// The index of the bucket `key` is routed to.
    fn get_bucket<Q: EquivKey<K>>(&self, key: &Q) -> (i: usize)
        requires
            self.num_buckets() > 0,
        ensures
            i as int == bucket_index_of::<K>(key@, self.bseq().len() as int),
            i < self.bseq().len(),
    {
        let h = key.equiv_hash();
        (h % (self.buckets.len() as u64)) as usize
    }

    /// Looks `key` up, by the stored key type or any equivalent one: a
    /// reference to its value, or `None` when the table does not hold
    /// it. A table that has never grown holds nothing: the zero-bucket
    /// state is guarded here, and the lookup then reports "not found"
    /// rather than faulting.
    pub fn get<Q: EquivKey<K>>(&self, key: &Q) -> (r: Option<&V>)
        requires
            self.wf(),
        ensures
            match r {
                Some(v) => self@.contains_key(key@) && *v == self@[key@],
                None => !self@.contains_key(key@),
            },
    {
        if self.buckets.is_empty() {
            return None;
        }
        let idx = self.get_bucket(key);
        let ghost bs = self.bseq();
        let bucket: &Vec<(K, V)> = &self.buckets[idx];
        let mut j: usize = 0;
        while j < bucket.len()
            invariant
                self.wf(),
                bs == self.bseq(),
                idx < bs.len(),
                idx as int == bucket_index_of::<K>(key@, bs.len() as int),
                bucket@ == bs[idx as int],
                j <= bucket.len(),
                forall|t: int| 0 <= t < j ==> (#[trigger] bucket@[t]).0@ != key@,
            decreases bucket.len() - j,
        {
            if key.equiv_eq(&bucket[j].0) {
                proof {
                    lemma_table_map_route(bs, key@);
                    lemma_bucket_map_get(bs[idx as int], key@, j as int);
                }
                return Some(&bucket[j].1);
            }
            j += 1;
        }
        proof {
            lemma_table_map_route(bs, key@);
            lemma_bucket_map_contains(bs[idx as int], key@);
        }
        None
    }

    /// Inserts `key` with `value`. When an entry with an equal key view
    /// exists, its value is replaced and the previous value returned;
    /// otherwise the entry is appended to its bucket and `None`
    /// returned. The growth condition is always evaluated first, so the
    /// table may grow even on a pure replacement.
    pub fn insert(&mut self, key: K, value: V) -> (r: Option<V>)
        requires
            old(self).wf(),
            old(self).num_buckets() <= usize::MAX / 2,
        ensures
            final(self).wf(),
            final(self)@ == old(self)@.insert(key@, value),
            r == (if old(self)@.contains_key(key@) {
                Option::Some(old(self)@[key@])
            } else {
                Option::None::<V>
            }),
            final(self).num_buckets() == (if old(self).needs_grow() {
                spec_grow_target(old(self).num_buckets())
            } else {
                old(self).num_buckets()
            }),
    {
        proof {
            lemma_table_map_len(old(self).bseq(), old(self).bseq().len() as int);
        }
        if self.buckets.is_empty() || (self.items as u128) > 3 * (self.buckets.len() as u128)
            / 4 {
            self.resize();
        }
        let ghost bs = self.bseq();
        let ghost n = bs.len() as int;
        proof {
            lemma_table_map_len(bs, n);
            // Headroom: after a possible growth there is room for one
            // more entry under the 3/4 bound.
            assert(self.items <= 3 * n / 4) by {
                if old(self).needs_grow() {
                    let nold = old(self).bseq().len() as int;
                    if nold > 0 {
                        assert(self.items <= 3 * nold / 4 + 1);
                        assert(n == 2 * nold);
                        assert(3 * nold / 4 + 1 <= 3 * (2 * nold) / 4) by (nonlinear_arith)
                            requires
                                nold >= 1,
                        ;
                    }
                }
            }
        }
        let idx = self.get_bucket(&key);
        let mut bucket: Vec<(K, V)> = Vec::new();
        self.buckets.set_and_swap(idx, &mut bucket);
        let ghost mid = *self;
        let mut hit: Option<usize> = None;
        let mut j: usize = 0;
        while j < bucket.len()
            invariant
                j <= bucket@.len(),
                bucket@ == bs[idx as int],
                match hit {
                    Some(h) => h < j && bucket@[h as int].0@ == key@,
                    None => forall|t: int| 0 <= t < j ==> (#[trigger] bucket@[t]).0@ != key@,
                },
            decreases bucket@.len() - j,
        {
            if hit.is_none() && bucket[j].0.key_eq(&key) {
                hit = Some(j);
            }
            j += 1;
        }
        proof {
            assert(vecs_view(mid.buckets@) =~= bs.update(idx as int, Seq::<(K, V)>::empty()));
            lemma_table_map_route(bs, key@);
            lemma_bucket_map_contains(bs[idx as int], key@);
        }
        match hit {
            Some(h) => {
                let pair = bucket.swap_remove(h);
                bucket.push((key, value));
                self.buckets.set_and_swap(idx, &mut bucket);
                proof {
                    let kv = bs[idx as int][h as int].0@;
                    lemma_table_map_update_swap_remove(bs, idx as int, h as int);
                    let bs2 = bs.update(
                        idx as int,
                        bs[idx as int].update(h as int, bs[idx as int].last()).drop_last(),
                    );
                    lemma_table_map_route(bs2, key@);
                    lemma_table_map_update_push(bs2, idx as int, (key, value));
                    assert(vecs_view(self.buckets@) =~= bs2.update(
                        idx as int,
                        bs2[idx as int].push((key, value)),
                    ));
                    assert(table_map(bs).remove(kv).insert(key@, value) =~= table_map(bs).insert(
                        key@,
                        value,
                    ));
                }
                Some(pair.1)
            }
            None => {
                bucket.push((key, value));
                self.buckets.set_and_swap(idx, &mut bucket);
                self.items = self.items + 1;
                proof {
                    lemma_table_map_update_push(bs, idx as int, (key, value));
                    assert(vecs_view(self.buckets@) =~= bs.update(
                        idx as int,
                        bs[idx as int].push((key, value)),
                    ));
                }
                None
            }
        }
    }

    /// Removes the entry whose key view equals `key`'s, swapping the
    /// bucket's last entry into its place rather than shifting, which
    /// gives up intra-bucket order nobody may rely on: the removed
    /// value is returned, or `None` and no change when the table does
    /// not hold the key. The zero-bucket state is guarded, as in
    /// `get`.
    pub fn remove<Q: EquivKey<K>>(&mut self, key: &Q) -> (r: Option<V>)
        requires
            old(self).wf(),
        ensures
            final(self).wf(),
            final(self)@ == old(self)@.remove(key@),
            r == (if old(self)@.contains_key(key@) {
                Option::Some(old(self)@[key@])
            } else {
                Option::None::<V>
            }),
            final(self).num_buckets() == old(self).num_buckets(),
    {
        if self.buckets.is_empty() {
            proof {
                assert(old(self)@.remove(key@) =~= old(self)@);
            }
            return None;
        }
        let idx = self.get_bucket(key);
        let ghost bs = self.bseq();
        let mut bucket: Vec<(K, V)> = Vec::new();
        self.buckets.set_and_swap(idx, &mut bucket);
        let mut hit: Option<usize> = None;
        let mut j: usize = 0;
        while j < bucket.len()
            invariant
                j <= bucket@.len(),
                bucket@ == bs[idx as int],
                match hit {
                    Some(h) => h < j && bucket@[h as int].0@ == key@,
                    None => forall|t: int| 0 <= t < j ==> (#[trigger] bucket@[t]).0@ != key@,
                },
            decreases bucket@.len() - j,
        {
            if hit.is_none() && key.equiv_eq(&bucket[j].0) {
                hit = Some(j);
            }
            j += 1;
        }
        proof {
            lemma_table_map_route(bs, key@);
            lemma_bucket_map_contains(bs[idx as int], key@);
        }
        match hit {
            Some(h) => {
                proof {
                    lemma_total_entries_at_least(bs, idx as int);
                }
                self.items = self.items - 1;
                let pair = bucket.swap_remove(h);
                self.buckets.set_and_swap(idx, &mut bucket);
                proof {
                    lemma_table_map_update_swap_remove(bs, idx as int, h as int);
                    assert(vecs_view(self.buckets@) =~= bs.update(
                        idx as int,
                        bs[idx as int].update(h as int, bs[idx as int].last()).drop_last(),
                    ));
                }
                Some(pair.1)
            }
            None => {
                self.buckets.set_and_swap(idx, &mut bucket);
                proof {
                    assert(vecs_view(self.buckets@) =~= bs);
                    assert(table_map(bs).remove(key@) =~= table_map(bs));
                }
                None
            }
        }
    }

    /// Grows the table: one bucket where there was none, else double
    /// the count, with every entry rehashed into the bucket its hash
    /// selects among the new count. Contents and live count are
    /// unchanged.
    pub fn resize(&mut self)
        requires
            old(self).wf(),
            old(self).num_buckets() <= usize::MAX / 2,
        ensures
            final(self).wf(),
            final(self)@ == old(self)@,
            final(self).num_buckets() == spec_grow_target(old(self).num_buckets()),
    {
        let n = self.buckets.len();
        let target: usize = if n == 0 {
            1
        } else {
            2 * n
        };
        let ghost old_view = old(self)@;
        let ghost old_total = total_entries(old(self).bseq());
        let ghost nold = old(self).bseq().len() as int;

        let mut new_buckets: Vec<Vec<(K, V)>> = Vec::new();
        let mut i: usize = 0;
        while i < target
            invariant
                i <= target,
                new_buckets@.len() == i,
                forall|t: int| 0 <= t < i ==> (#[trigger] new_buckets@[t])@.len() == 0,
            decreases target - i,
        {
            new_buckets.push(Vec::new());
            i += 1;
        }
        proof {
            assert(forall|t: int|
                0 <= t < vecs_view(new_buckets@).len() ==> (#[trigger] vecs_view(new_buckets@)[t]).len()
                    == 0);
            lemma_table_map_empty_buckets(vecs_view(new_buckets@));
        }
        while self.buckets.len() > 0
            invariant
                new_buckets@.len() == target,
                0 < target <= usize::MAX,
                target as nat == spec_grow_target(old(self).num_buckets()),
                buckets_wf(vecs_view(new_buckets@)),
                buckets_distinct(vecs_view(self.buckets@)),
                buckets_routed(vecs_view(self.buckets@), nold),
                forall|kv: K::V|
                    table_map(vecs_view(self.buckets@)).contains_key(kv)
                        ==> !(#[trigger] table_map(vecs_view(new_buckets@)).contains_key(kv)),
                table_map(vecs_view(new_buckets@)).union_prefer_right(
                    table_map(vecs_view(self.buckets@)),
                ) == old_view,
                total_entries(vecs_view(new_buckets@)) + total_entries(vecs_view(self.buckets@))
                    == old_total,
                self.items == old(self).items,
            decreases self.buckets@.len(),
        {
            let ghost rem0 = vecs_view(self.buckets@);
            let mut bucket = self.buckets.pop().unwrap();
            let ghost rem1 = vecs_view(self.buckets@);
            proof {
                assert(rem1 =~= rem0.drop_last());
                assert(rem0.last() == bucket@);
                assert(table_map(rem0) == table_map(rem1).union_prefer_right(
                    bucket_map(bucket@),
                ));
                assert(total_entries(rem0) == total_entries(rem1) + bucket@.len());
                // The popped bucket's keys sit in neither the new table
                // nor the remaining buckets: routing separates them.
                assert forall|kv: K::V| bucket_contains_key(bucket@, kv) implies !table_map(
                    rem1,
                ).contains_key(kv) && !table_map(vecs_view(new_buckets@)).contains_key(kv) by {
                    let j = choose|j: int| 0 <= j < bucket@.len() && bucket@[j].0@ == kv;
                    assert(rem0[rem0.len() - 1][j].0@ == kv);
                    assert(bucket_index_of::<K>(kv, nold) == rem0.len() - 1);
                    lemma_table_map_contains(rem1, kv);
                    if table_map(rem1).contains_key(kv) {
                        let i2 = choose|i2: int|
                            0 <= i2 < rem1.len() && bucket_contains_key(#[trigger] rem1[i2], kv);
                        let j2 = choose|j2: int| 0 <= j2 < rem1[i2].len() && rem1[i2][j2].0@ == kv;
                        assert(rem0[i2] == rem1[i2]);
                        assert(bucket_index_of::<K>(kv, nold) == i2);
                    }
                    lemma_table_map_contains(rem0, kv);
                    assert(bucket_contains_key(rem0[rem0.len() - 1], kv));
                    assert(table_map(rem0).contains_key(kv));
                }
                assert forall|kv: K::V|
                    #[trigger] bucket_map(bucket@).contains_key(kv) implies bucket_contains_key(
                    bucket@,
                    kv,
                ) by {
                    lemma_bucket_map_contains(bucket@, kv);
                }
                assert(table_map(vecs_view(new_buckets@)).union_prefer_right(
                    bucket_map(bucket@),
                ).union_prefer_right(table_map(rem1)) =~= table_map(
                    vecs_view(new_buckets@),
                ).union_prefer_right(table_map(rem0)));
            }
            while bucket.len() > 0
                invariant
                    new_buckets@.len() == target,
                    0 < target <= usize::MAX,
                    buckets_wf(vecs_view(new_buckets@)),
                    bucket_distinct(bucket@),
                    forall|kv: K::V|
                        bucket_contains_key(bucket@, kv) ==> !(#[trigger] table_map(
                            vecs_view(new_buckets@),
                        ).contains_key(kv)),
                    forall|kv: K::V|
                        table_map(rem1).contains_key(kv) ==> !(#[trigger] table_map(
                            vecs_view(new_buckets@),
                        ).contains_key(kv)),
                    forall|kv: K::V|
                        bucket_contains_key(bucket@, kv) ==> !(#[trigger] table_map(
                            rem1,
                        ).contains_key(kv)),
                    table_map(vecs_view(new_buckets@)).union_prefer_right(
                        bucket_map(bucket@),
                    ).union_prefer_right(table_map(rem1)) == old_view,
                    total_entries(vecs_view(new_buckets@)) + bucket@.len() + total_entries(rem1)
                        == old_total,
                decreases bucket@.len(),
            {
                let ghost b_pre = bucket@;
                let pair = bucket.pop().unwrap();
                let ghost b_rest = bucket@;
                let ghost kv = pair.0@;
                let h = pair.0.key_hash();
                let idx = (h % (target as u64)) as usize;
                let ghost nb0 = vecs_view(new_buckets@);
                proof {
                    assert(b_rest == b_pre.drop_last());
                    assert(b_pre.last() == pair);
                    assert(bucket_contains_key(b_pre, kv)) by {
                        assert(b_pre[b_pre.len() - 1].0@ == kv);
                    }
                    assert(bucket_map(b_pre) == bucket_map(b_rest).insert(kv, pair.1));
                    assert(!bucket_contains_key(b_rest, kv)) by {
                        if bucket_contains_key(b_rest, kv) {
                            let j = choose|j: int| 0 <= j < b_rest.len() && b_rest[j].0@ == kv;
                            assert(b_pre[j].0@ == b_pre[b_pre.len() - 1].0@);
                        }
                    }
                    assert(idx as int == bucket_index_of::<K>(kv, target as int));
                    assert(idx < target);
                }
                let mut tmp: Vec<(K, V)> = Vec::new();
                new_buckets.set_and_swap(idx, &mut tmp);
                tmp.push(pair);
                new_buckets.set_and_swap(idx, &mut tmp);
                proof {
                    let nb1 = vecs_view(new_buckets@);
                    assert(nb1 =~= nb0.update(idx as int, nb0[idx as int].push(pair)));
                    lemma_table_map_update_push(nb0, idx as int, pair);
                    assert(table_map(nb1) == table_map(nb0).insert(kv, pair.1));
                    lemma_bucket_map_contains(b_rest, kv);
                    lemma_shift_binding_left(
                        table_map(nb0),
                        bucket_map(b_rest),
                        table_map(rem1),
                        kv,
                        pair.1,
                    );
                    // The three groups stay pairwise key-disjoint.
                    assert forall|kv2: K::V| bucket_contains_key(b_rest, kv2) implies !table_map(
                        nb1,
                    ).contains_key(kv2) by {
                        let j = choose|j: int| 0 <= j < b_rest.len() && b_rest[j].0@ == kv2;
                        assert(b_pre[j].0@ == kv2);
                    }
                    assert forall|kv2: K::V| table_map(rem1).contains_key(kv2) implies !table_map(
                        nb1,
                    ).contains_key(kv2) by {
                        assert(!bucket_contains_key(b_pre, kv2) || kv2 != kv);
                    }
                    assert forall|kv2: K::V| bucket_contains_key(b_rest, kv2) implies !table_map(
                        rem1,
                    ).contains_key(kv2) by {
                        let j = choose|j: int| 0 <= j < b_rest.len() && b_rest[j].0@ == kv2;
                        assert(b_pre[j].0@ == kv2);
                    }
                }
            }
            proof {
                assert(bucket_map(bucket@) =~= Map::<K::V, V>::empty());
                assert(table_map(vecs_view(new_buckets@)).union_prefer_right(
                    bucket_map(bucket@),
                ) =~= table_map(vecs_view(new_buckets@)));
            }
        }
        proof {
            assert(vecs_view(self.buckets@) =~= Seq::<Seq<(K, V)>>::empty());
            assert(table_map(vecs_view(self.buckets@)) == Map::<K::V, V>::empty());
            assert(table_map(vecs_view(new_buckets@)).union_prefer_right(
                Map::<K::V, V>::empty(),
            ) =~= table_map(vecs_view(new_buckets@)));
        }
        self.buckets = new_buckets;
        proof {
            assert(self.bseq() == vecs_view(self.buckets@));
            // The load bound only relaxes when the bucket count grows.
            if nold > 0 {
                assert(3 * nold / 4 <= 3 * (2 * nold) / 4);
            }
        }
    }

    /// Whether the table holds an entry for `key`.
    pub fn contains_key<Q: EquivKey<K>>(&self, key: &Q) -> (r: bool)
        requires
            self.wf(),
        ensures
            r == self@.contains_key(key@),
    {
        self.get(key).is_some()
    }

    /// The table's entries in iteration order: bucket by bucket, and
    /// within a bucket in storage order. The order carries no meaning.
    pub closed spec fn entries_seq(self) -> Seq<(K, V)> {
        self.bseq().flatten()
    }

    /// Iteration is complete and exact: the entries in iteration order
    /// are as many as the live count, every one is a live binding, and
    /// every live binding appears among them.
    pub proof fn lemma_iteration_complete(self)
        requires
            self.wf(),
        ensures
            self.entries_seq().len() == self@.len(),
            forall|j: int|
                0 <= j < self.entries_seq().len() ==> self@.contains_key(
                    (#[trigger] self.entries_seq()[j]).0@,
                ) && self@[self.entries_seq()[j].0@] == self.entries_seq()[j].1,
            forall|kv: K::V|
                #[trigger] self@.contains_key(kv) ==> exists|j: int|
                    0 <= j < self.entries_seq().len() && (#[trigger] self.entries_seq()[j]).0@
                        == kv && self.entries_seq()[j].1 == self@[kv],
    {
        let bs = self.bseq();
        lemma_wf_entries_distinct(bs);
        lemma_table_map_flatten(bs);
        bs.lemma_flatten_and_flatten_alt_are_equivalent();
        lemma_table_map_len(bs, bs.len() as int);
    }

    /// A fresh iterator over the table's entries, positioned at the
    /// first one.
    pub fn iter(&self) -> (it: Iter<'_, K, V>)
        ensures
            it.valid(),
            it.table() == *self,
            it.remaining() == self.entries_seq(),
    {
        let it = Iter { map: self, bucket: 0, at: 0 };
        proof {
            let bs = self.bseq();
            if bs.len() > 0 {
                assert(bs[0].skip(0) =~= bs.first());
                assert(bs.skip(1) =~= bs.drop_first());
            }
        }
        it
    }
}

/// A read-only iterator over a table's entries; it yields each live
/// entry exactly once, bucket by bucket. Construct a new one to
/// restart.
pub struct Iter<'a, K, V> {
    map: &'a LinkedHashMap<K, V>,
    bucket: usize,
    at: usize,
}

impl<'a, K: TableKey, V> Iter<'a, K, V> {
    /// The table being iterated.
    pub closed spec fn table(self) -> LinkedHashMap<K, V> {
        *self.map
    }

    /// The iterator's position lies within the table.
    pub closed spec fn valid(self) -> bool {
        let bs = self.map.bseq();
        &&& self.bucket <= bs.len()
        &&& (self.bucket < bs.len() ==> self.at <= bs[self.bucket as int].len())
    }

    /// The entries not yet yielded, in the order they will come.
    pub closed spec fn remaining(self) -> Seq<(K, V)> {
        let bs = self.map.bseq();
        if self.bucket < bs.len() {
            bs[self.bucket as int].skip(self.at as int) + bs.skip(self.bucket as int + 1).flatten()
        } else {
            Seq::empty()
        }
    }

    /// Yields the next entry: the head of `remaining`, or `None` once
    /// every entry has been yielded.
    pub fn next(&mut self) -> (r: Option<(&'a K, &'a V)>)
        requires
            old(self).valid(),
        ensures
            final(self).valid(),
            final(self).table() == old(self).table(),
            match r {
                Some(p) => {
                    &&& old(self).remaining().len() > 0
                    &&& *p.0 == old(self).remaining()[0].0
                    &&& *p.1 == old(self).remaining()[0].1
                    &&& final(self).remaining() == old(self).remaining().drop_first()
                },
                None => {
                    &&& old(self).remaining().len() == 0
                    &&& final(self).remaining() == old(self).remaining()
                },
            },
    {
        loop
            invariant
                self.valid(),
                self.map == old(self).map,
                self.remaining() == old(self).remaining(),
            decreases self.map.bseq().len() - self.bucket,
        {
            let ghost bs = self.map.bseq();
            if self.bucket >= self.map.buckets.len() {
                return None;
            }
            let b: &Vec<(K, V)> = &self.map.buckets[self.bucket];
            proof {
                assert(b@ == bs[self.bucket as int]);
            }
            if self.at < b.len() {
                let e: &(K, V) = &b[self.at];
                let ghost pre = *self;
                self.at = self.at + 1;
                proof {
                    let pos = pre.bucket as int;
                    assert(pre.remaining()[0] == bs[pos].skip(pre.at as int)[0]);
                    assert(bs[pos].skip(pre.at as int)[0] == bs[pos][pre.at as int]);
                    assert(self.remaining() =~= pre.remaining().drop_first()) by {
                        assert(bs[pos].skip(pre.at as int).drop_first() =~= bs[pos].skip(
                            pre.at as int + 1,
                        ));
                    }
                }
                return Some((&e.0, &e.1));
            }
            let ghost pre = *self;
            self.bucket = self.bucket + 1;
            self.at = 0;
            proof {
                let pos = pre.bucket as int;
                assert(bs[pos].skip(pre.at as int) =~= Seq::<(K, V)>::empty());
                if pos + 1 < bs.len() {
                    assert(bs.skip(pos + 1).first() == bs[pos + 1]);
                    assert(bs.skip(pos + 1).drop_first() =~= bs.skip(pos + 2));
                    assert(self.remaining() =~= pre.remaining());
                } else {
                    assert(bs.skip(pos + 1) =~= Seq::<Seq<(K, V)>>::empty());
                    assert(self.remaining() =~= pre.remaining());
                }
            }
        }
    }
}

} // verus!
