//! A map from keys in `[0, 2^63)` to values, kept as one list sorted in
//! split order, with a growable table of bucket positions into it.
//!
//! A key `k` is stored under its ordinary key `rev(k | 2^63)`; bucket `b`
//! is marked by a sentinel entry without a value under `rev(b)`. Bucket
//! `k % size` of a key always comes before the key in the list, so a search
//! for `k` can start at its bucket's sentinel. Doubling `size` moves no
//! entry: a new bucket's sentinel is spliced in, on first use, after the
//! sentinel of its parent bucket.
use vstd::prelude::*;
use vstd::arithmetic::power2::{pow2, lemma_pow2_unfold, lemma_pow2_pos, lemma2_to64};
use crate::bits::{
    rev,
    reverse_bits,
    lemma_rev_involutive,
    lemma_rev_submask,
    lemma_rev_zero,
    lemma_rev_bucket_before_key,
    lemma_mod_pow2_is_mask,
};
use crate::growable_array::GrowableArray;

verus! {

/// The top bit of a word; no user key may have it set.
pub const HI_MASK: u64 = 0x8000000000000000;

/// `size` is doubled once `count` exceeds `size * LOAD_FACTOR`.
pub const LOAD_FACTOR: usize = 2;

/// A key that the map accepts: its top bit is clear.
pub open spec fn valid_key(key: usize) -> bool {
    (key as u64) < 0x8000000000000000u64
}

/// Where the entry of user key `key` stands in split order.
pub open spec fn ordinary_key(key: usize) -> u64 {
    rev((key as u64) | 0x8000000000000000u64)
}

/// Where the sentinel of bucket `b` stands in split order.
pub open spec fn sentinel_key(b: usize) -> u64 {
    rev(b as u64)
}

/// The user key that an ordinary key encodes.
pub open spec fn user_key(o: u64) -> usize {
    (rev(o) & 0x7fffffffffffffffu64) as usize
}

/// The highest power of two that is at most `b` (`0` for `0`).
pub open spec fn high_bit(b: nat) -> nat
    decreases b,
{
    if b <= 1 {
        b
    } else {
        2 * high_bit(b / 2)
    }
}

/// The parent of bucket `b`: `b` with its highest set bit cleared.
pub open spec fn parent_bucket(b: u64) -> u64 {
    (b - high_bit(b as nat)) as u64
}

/// A power of two `p` with `p <= b < 2 * p` is the highest bit of `b`.
pub proof fn lemma_high_bit(b: u64, p: u64)
    requires
        p != 0,
        p & ((p - 1) as u64) == 0,
        p <= b,
        b < 2 * p,
    ensures
        high_bit(b as nat) == p,
    decreases b,
{
    if b > 1 {
        let b2 = b / 2;
        let p2 = p / 2;
        assert(p2 != 0 && p2 & ((p2 - 1) as u64) == 0 && p2 * 2 == p) by (bit_vector)
            requires
                p2 == p / 2,
                p >= 2,
                p & ((p - 1) as u64) == 0,
        ;
        lemma_high_bit(b2, p2);
    }
}

/// An ordinary key encodes its user key, and is told apart from every
/// sentinel key by the top bit of its reversal.
pub proof fn lemma_ordinary_key(key: usize)
    requires
        valid_key(key),
    ensures
        user_key(ordinary_key(key)) == key,
        rev(ordinary_key(key)) >= 0x8000000000000000u64,
{
    let k = key as u64;
    let o = k | 0x8000000000000000u64;
    lemma_rev_involutive(o);
    assert(o >= 0x8000000000000000u64 && o & 0x7fffffffffffffffu64 == k) by (bit_vector)
        requires
            k < 0x8000000000000000u64,
            o == k | 0x8000000000000000u64,
    ;
}

/// Distinct valid keys have distinct ordinary keys.
pub proof fn lemma_ordinary_key_injective(k1: usize, k2: usize)
    requires
        valid_key(k1),
        valid_key(k2),
        ordinary_key(k1) == ordinary_key(k2),
    ensures
        k1 == k2,
{
    lemma_ordinary_key(k1);
    lemma_ordinary_key(k2);
}

/// A sentinel key of a bucket below `2^63` is no ordinary key.
pub proof fn lemma_sentinel_key(b: usize)
    requires
        (b as u64) < 0x8000000000000000u64,
    ensures
        rev(sentinel_key(b)) < 0x8000000000000000u64,
{
    lemma_rev_involutive(b as u64);
}

/// What `lookup` returns on a map whose contents are `m`.
pub open spec fn lookup_result<V>(m: Map<usize, V>, key: usize) -> Option<V> {
    if m.contains_key(key) {
        Some(m[key])
    } else {
        None
    }
}

/// The contents after `insert`, and what it returns, on a map whose
/// contents are `m`: a key that is present keeps its value and the new
/// value comes back.
pub open spec fn insert_result<V>(m: Map<usize, V>, key: usize, value: V) -> (Map<usize, V>, Result<(), V>) {
    if m.contains_key(key) {
        (m, Err(value))
    } else {
        (m.insert(key, value), Ok(()))
    }
}

/// The contents after `delete`, and what it returns, on a map whose
/// contents are `m`.
pub open spec fn delete_result<V>(m: Map<usize, V>, key: usize) -> (Map<usize, V>, Result<V, ()>) {
    if m.contains_key(key) {
        (m.remove(key), Ok(m[key]))
    } else {
        (m, Err(()))
    }
}

/// The contents after inserting the pairs of `kvs` in order, starting from
/// contents `m`.
pub open spec fn insert_all<V>(m: Map<usize, V>, kvs: Seq<(usize, V)>) -> Map<usize, V>
    decreases kvs.len(),
{
    if kvs.len() == 0 {
        m
    } else {
        let last = kvs.last();
        insert_result(insert_all(m, kvs.drop_last()), last.0, last.1).0
    }
}

/// A new map holds no key.
pub proof fn law_new_map_is_empty<V>(key: usize)
    ensures
        lookup_result(Map::<usize, V>::empty(), key) is None,
{
}

/// Once `insert(key, value)` succeeds, `lookup(key)` returns `value`; a
/// second insert of `key`, and an insert or delete of any other key, leave
/// it so. Only a delete of `key` itself takes it away.
pub proof fn law_lookup_after_insert<V>(m: Map<usize, V>, key: usize, value: V, other: usize, w: V)
    requires
        !m.contains_key(key),
    ensures
        insert_result(m, key, value).1 is Ok,
        ({
            let m1 = insert_result(m, key, value).0;
            &&& lookup_result(m1, key) == Some(value)
            &&& lookup_result(insert_result(m1, other, w).0, key) == Some(value)
            &&& other != key ==> lookup_result(delete_result(m1, other).0, key) == Some(value)
            &&& lookup_result(delete_result(m1, key).0, key) is None
        }),
{
}

/// Inserting a key twice with no delete in between: the second insert fails
/// and hands its value back, and the map still holds the first value.
pub proof fn law_second_insert_fails<V>(m: Map<usize, V>, key: usize, v1: V, v2: V)
    requires
        !m.contains_key(key),
    ensures
        ({
            let m1 = insert_result(m, key, v1).0;
            &&& insert_result(m1, key, v2) == (m1, Err::<(), V>(v2))
            &&& lookup_result(m1, key) == Some(v1)
        }),
{
}

/// Deleting a key that the map does not hold fails with "not found" and
/// changes nothing; deleting the same key twice succeeds at most once.
pub proof fn law_delete_at_most_once<V>(m: Map<usize, V>, key: usize)
    ensures
        !m.contains_key(key) ==> delete_result(m, key) == (m, Err::<V, ()>(())),
        delete_result(delete_result(m, key).0, key).1 == Err::<V, ()>(()),
{
}

/// `insert(key, value)` then `delete(key)` returns `value` and gives the
/// map back as it was: `lookup(key)` is then absent and a further
/// `delete(key)` fails.
pub proof fn law_insert_delete_round_trip<V>(m: Map<usize, V>, key: usize, value: V)
    requires
        !m.contains_key(key),
    ensures
        ({
            let m1 = insert_result(m, key, value).0;
            let (m2, r) = delete_result(m1, key);
            &&& r == Ok::<V, ()>(value)
            &&& m2 == m
            &&& lookup_result(m2, key) is None
            &&& delete_result(m2, key).1 == Err::<V, ()>(())
        }),
{
    let m1 = insert_result(m, key, value).0;
    assert(m1.remove(key) =~= m);
}

/// Inserting pairs with distinct keys, none of them present, loses
/// nothing: every key inserted looks up its own value, every key present
/// before keeps its value, and the map holds exactly that many more keys.
pub proof fn law_distinct_inserts_all_kept<V>(m: Map<usize, V>, kvs: Seq<(usize, V)>)
    requires
        m.dom().finite(),
        forall|i: int| 0 <= i < kvs.len() ==> !m.contains_key(#[trigger] kvs[i].0),
        forall|i: int, j: int| 0 <= i < j < kvs.len() ==> (#[trigger] kvs[i]).0 != (#[trigger] kvs[j]).0,
    ensures
        insert_all(m, kvs).dom().finite(),
        insert_all(m, kvs).len() == m.len() + kvs.len(),
        forall|i: int| 0 <= i < kvs.len() ==> lookup_result(insert_all(m, kvs), (#[trigger] kvs[i]).0) == Some(kvs[i].1),
        forall|k: usize| #[trigger] m.contains_key(k) ==> lookup_result(insert_all(m, kvs), k) == lookup_result(m, k),
        forall|k: usize|
            #[trigger] insert_all(m, kvs).contains_key(k) ==> m.contains_key(k) || exists|i: int|
                0 <= i < kvs.len() && (#[trigger] kvs[i]).0 == k,
    decreases kvs.len(),
{
    if kvs.len() > 0 {
        let init = kvs.drop_last();
        let last = kvs.last();
        assert forall|i: int| 0 <= i < init.len() implies !m.contains_key(#[trigger] init[i].0) by {
            assert(init[i] == kvs[i]);
        }
        assert forall|i: int, j: int| 0 <= i < j < init.len() implies (#[trigger] init[i]).0 != (#[trigger] init[j]).0 by {
            assert(init[i] == kvs[i] && init[j] == kvs[j]);
        }
        law_distinct_inserts_all_kept(m, init);
        let mi = insert_all(m, init);
        assert(!mi.contains_key(last.0)) by {
            if mi.contains_key(last.0) {
                if !m.contains_key(last.0) {
                    let i = choose|i: int| 0 <= i < init.len() && (#[trigger] init[i]).0 == last.0;
                    assert(init[i] == kvs[i]);
                    assert(kvs[kvs.len() - 1] == last);
                }
            }
        }
        assert forall|k: usize| #[trigger] insert_all(m, kvs).contains_key(k) implies m.contains_key(k) || exists|i: int|
                0 <= i < kvs.len() && (#[trigger] kvs[i]).0 == k by {
            if k != last.0 && !m.contains_key(k) {
                let i = choose|i: int| 0 <= i < init.len() && (#[trigger] init[i]).0 == k;
                assert(init[i] == kvs[i]);
            } else if k == last.0 {
                assert(kvs[kvs.len() - 1] == last);
            }
        }
        assert forall|i: int| 0 <= i < kvs.len() implies lookup_result(insert_all(m, kvs), (#[trigger] kvs[i]).0) == Some(kvs[i].1) by {
            if i < kvs.len() - 1 {
                assert(init[i] == kvs[i]);
                assert(kvs[i].0 != kvs[kvs.len() - 1].0);
            }
        }
    }
}

/// One operation on the map that may change its contents.
pub enum MapOp<V> {
    Insert(usize, V),
    Delete(usize),
}

/// The contents after applying `ops` in order, starting from contents `m`.
pub open spec fn apply_ops<V>(m: Map<usize, V>, ops: Seq<MapOp<V>>) -> Map<usize, V>
    decreases ops.len(),
{
    if ops.len() == 0 {
        m
    } else {
        let before = apply_ops(m, ops.drop_last());
        match ops.last() {
            MapOp::Insert(k, v) => insert_result(before, k, v).0,
            MapOp::Delete(k) => delete_result(before, k).0,
        }
    }
}

/// Once the map holds `value` under `key`, `lookup(key)` keeps returning
/// `value` through any series of inserts and deletes that holds no delete of
/// `key`: later inserts of `key` fail and leave it.
pub proof fn law_value_kept_until_delete<V>(m: Map<usize, V>, key: usize, value: V, ops: Seq<MapOp<V>>)
    requires
        lookup_result(m, key) == Some(value),
        forall|i: int| 0 <= i < ops.len() ==> #[trigger] ops[i] != MapOp::<V>::Delete(key),
    ensures
        lookup_result(apply_ops(m, ops), key) == Some(value),
    decreases ops.len(),
{
    if ops.len() > 0 {
        let init = ops.drop_last();
        assert forall|i: int| 0 <= i < init.len() implies #[trigger] init[i] != MapOp::<V>::Delete(key) by {
            assert(init[i] == ops[i]);
        }
        law_value_kept_until_delete(m, key, value, init);
        assert(ops[ops.len() - 1] != MapOp::<V>::Delete(key));
    }
}

/// Once `key` is absent, every `delete(key)` fails until some insert of
/// `key`: of a series of deletes of one key, at most one succeeds.
pub proof fn law_absent_until_insert<V>(m: Map<usize, V>, key: usize, ops: Seq<MapOp<V>>)
    requires
        lookup_result(m, key) is None,
        forall|i: int| 0 <= i < ops.len() ==> !(#[trigger] ops[i] is Insert && ops[i]->Insert_0 == key),
    ensures
        lookup_result(apply_ops(m, ops), key) is None,
        delete_result(apply_ops(m, ops), key) == (apply_ops(m, ops), Err::<V, ()>(())),
    decreases ops.len(),
{
    if ops.len() > 0 {
        let init = ops.drop_last();
        assert forall|i: int| 0 <= i < init.len() implies !(#[trigger] init[i] is Insert && init[i]->Insert_0 == key) by {
            assert(init[i] == ops[i]);
        }
        law_absent_until_insert(m, key, init);
        assert(!(ops[ops.len() - 1] is Insert && ops[ops.len() - 1]->Insert_0 == key));
    }
}

/// An entry agrees with contents `m`: a sentinel has a key whose reversal
/// lies below `2^63`; a user entry has the ordinary key of a user key that
/// `m` maps to the entry's value.
pub open spec fn entry_ok<V>(m: Map<usize, V>, e: (u64, Option<V>)) -> bool {
    match e.1 {
        None => rev(e.0) < 0x8000000000000000u64,
        Some(v) => {
            &&& rev(e.0) >= 0x8000000000000000u64
            &&& m.contains_key(user_key(e.0))
            &&& m[user_key(e.0)] == v
            &&& ordinary_key(user_key(e.0)) == e.0
        },
    }
}

/// The keys of `s` strictly increase.
pub open spec fn seq_sorted<V>(s: Seq<(u64, Option<V>)>) -> bool {
    forall|i: int, j: int| 0 <= i < j < s.len() ==> (#[trigger] s[i]).0 < (#[trigger] s[j]).0
}

/// An entry whose key lies between those before and after `pos` keeps the
/// keys strictly increasing.
pub proof fn lemma_sorted_insert<V>(s: Seq<(u64, Option<V>)>, pos: int, e: (u64, Option<V>))
    requires
        0 <= pos <= s.len(),
        seq_sorted(s),
        forall|i: int| 0 <= i < pos ==> (#[trigger] s[i]).0 < e.0,
        forall|i: int| pos <= i < s.len() ==> (#[trigger] s[i]).0 > e.0,
    ensures
        seq_sorted(s.insert(pos, e)),
{
    let t = s.insert(pos, e);
    assert forall|i: int, j: int| 0 <= i < j < t.len() implies (#[trigger] t[i]).0 < (#[trigger] t[j]).0 by {
        if j < pos {
            assert(t[i] == s[i] && t[j] == s[j]);
        } else if j == pos {
            assert(t[i] == s[i]);
        } else if i < pos {
            assert(t[i] == s[i] && t[j] == s[j - 1]);
        } else if i == pos {
            assert(t[j] == s[j - 1]);
        } else {
            assert(t[i] == s[i - 1] && t[j] == s[j - 1]);
        }
    }
}

/// Some entry of `s` stands under split-order key `o`.
pub open spec fn seq_has<V>(s: Seq<(u64, Option<V>)>, o: u64) -> bool {
    exists|i: int| 0 <= i < s.len() && (#[trigger] s[i]).0 == o
}

/// Inserting an entry adds its key to the keys present.
pub proof fn lemma_seq_has_insert<V>(s: Seq<(u64, Option<V>)>, pos: int, e: (u64, Option<V>))
    requires
        0 <= pos <= s.len(),
    ensures
        forall|o: u64| #[trigger] seq_has(s.insert(pos, e), o) == (seq_has(s, o) || e.0 == o),
{
    let t = s.insert(pos, e);
    assert forall|o: u64| #[trigger] seq_has(t, o) == (seq_has(s, o) || e.0 == o) by {
        if seq_has(s, o) {
            let i = choose|i: int| 0 <= i < s.len() && (#[trigger] s[i]).0 == o;
            if i < pos {
                assert(t[i] == s[i]);
            } else {
                assert(t[i + 1] == s[i]);
            }
        }
        if e.0 == o {
            assert(t[pos] == e);
        }
        if seq_has(t, o) {
            let j = choose|j: int| 0 <= j < t.len() && (#[trigger] t[j]).0 == o;
            if j < pos {
                assert(t[j] == s[j]);
            } else if j > pos {
                assert(t[j] == s[j - 1]);
            }
        }
    }
}

/// Removing an entry from a list of distinct keys takes its key out of
/// the keys present.
pub proof fn lemma_seq_has_remove<V>(s: Seq<(u64, Option<V>)>, pos: int)
    requires
        0 <= pos < s.len(),
        forall|i: int, j: int| 0 <= i < j < s.len() ==> (#[trigger] s[i]).0 < (#[trigger] s[j]).0,
    ensures
        forall|o: u64| #[trigger] seq_has(s.remove(pos), o) == (seq_has(s, o) && s[pos].0 != o),
{
    let t = s.remove(pos);
    assert forall|o: u64| #[trigger] seq_has(t, o) == (seq_has(s, o) && s[pos].0 != o) by {
        if seq_has(s, o) && s[pos].0 != o {
            let i = choose|i: int| 0 <= i < s.len() && (#[trigger] s[i]).0 == o;
            if i < pos {
                assert(t[i] == s[i]);
            } else {
                assert(t[i - 1] == s[i]);
            }
        }
        if seq_has(t, o) {
            let j = choose|j: int| 0 <= j < t.len() && (#[trigger] t[j]).0 == o;
            if j < pos {
                assert(t[j] == s[j]);
                assert(s[j].0 < s[pos].0);
            } else {
                assert(t[j] == s[j + 1]);
                assert(s[pos].0 < s[j + 1].0);
            }
        }
    }
}

/// A split-ordered map from keys in `[0, 2^63)` to values of type `V`.
pub struct SplitOrderedList<V> {
    /// Entries sorted by split-order key; `None` marks a sentinel.
    list: Vec<(u64, Option<V>)>,
    /// Slot `b` holds the sentinel key of bucket `b` once it is initialized.
    buckets: GrowableArray<u64>,
    /// Number of buckets, a power of two.
    size: usize,
    /// Number of user entries.
    count: usize,
    model: Ghost<Map<usize, V>>,
    size_log: Ghost<nat>,
    sentinels: Ghost<nat>,
}

impl<V> SplitOrderedList<V> {
    /// The map from user keys to values that the list holds.
    pub closed spec fn view(&self) -> Map<usize, V> {
        self.model@
    }

    /// A well-formed map holds finitely many keys.
    pub proof fn lemma_view_finite(&self)
        requires
            self.wf(),
        ensures
            self.view().dom().finite(),
    {
    }

    /// The number of buckets.
    pub closed spec fn bucket_count(&self) -> nat {
        self.size as nat
    }

    /// What the bucket table records for bucket `b`: the key of its
    /// sentinel once the bucket is initialized.
    pub closed spec fn bucket(&self, b: u64) -> Option<u64> {
        self.buckets.slot(b)
    }

    /// Every bucket initialized in `earlier` is still recorded here, with
    /// the same sentinel.
    pub closed spec fn keeps_buckets_of(&self, earlier: Self) -> bool {
        forall|b: u64| #[trigger] earlier.bucket(b) is Some ==> self.bucket(b) == earlier.bucket(b)
    }

    /// Bucket `b` and all its ancestors up to bucket `0` are initialized.
    pub closed spec fn ancestors_ready(&self, b: u64) -> bool
        decreases b,
    {
        &&& self.bucket(b) is Some
        &&& (b > 0 && parent_bucket(b) < b ==> self.ancestors_ready(parent_bucket(b)))
    }

    /// In a well-formed map an initialized bucket has all its ancestors
    /// initialized.
    proof fn lemma_ancestors_ready(&self, b: u64)
        requires
            self.wf(),
            self.bucket(b) is Some,
        ensures
            self.ancestors_ready(b),
        decreases b,
    {
        if b > 0 && parent_bucket(b) < b {
            self.lemma_ancestors_ready(parent_bucket(b));
        }
    }

    /// The list holds an entry under split-order key `o`.
    pub closed spec fn has_key(&self, o: u64) -> bool {
        seq_has(self.list@, o)
    }

    pub closed spec fn sorted(&self) -> bool {
        seq_sorted(self.list@)
    }

    pub closed spec fn wf(&self) -> bool {
        &&& self.sorted()
        &&& self.size as nat == pow2(self.size_log@)
        &&& self.size >= 2
        &&& 1 <= self.size_log@ < 64
        &&& self.buckets.wf()
        &&& forall|b: u64|
            #![trigger self.buckets.slot(b)]
            self.buckets.slot(b) is Some ==> {
                &&& b < self.size
                &&& self.buckets.slot(b) == Some(rev(b))
                &&& self.has_key(rev(b))
                &&& b != 0 ==> self.buckets.slot(parent_bucket(b)) is Some
            }
        &&& self.buckets.slot(0) is None ==> self.list.len() == 0
        &&& forall|i: int|
            #![trigger self.list@[i]]
            0 <= i < self.list.len() ==> entry_ok(self.model@, self.list@[i])
        &&& forall|k: usize|
            #[trigger] self.model@.contains_key(k) ==> valid_key(k) && self.has_key(ordinary_key(k))
        &&& self.model@.dom().finite()
        &&& self.count == self.model@.len()
        &&& self.list.len() == self.model@.len() + self.sentinels@
    }

    /// Creates an empty map with two buckets.
    pub fn new() -> (r: Self)
        ensures
            r.wf(),
            r.view() == Map::<usize, V>::empty(),
            r.view().dom().finite(),
            r.bucket_count() == 2,
    {
        proof {
            lemma_pow2_unfold(1);
            lemma_pow2_pos(0);
            assert(pow2(0) == 1) by {
                vstd::arithmetic::power2::lemma_pow2(0);
                vstd::arithmetic::power::lemma_pow0(2);
            }
        }
        SplitOrderedList {
            list: Vec::new(),
            buckets: GrowableArray::new(),
            size: 2,
            count: 0,
            model: Ghost(Map::empty()),
            size_log: Ghost(1),
            sentinels: Ghost(0),
        }
    }

    /// The parent of bucket `bucket_index`: the bucket without its highest
    /// set bit (`0` for bucket `0`).
    fn get_parent(&self, bucket_index: usize) -> (r: usize)
        requires
            self.wf(),
            bucket_index < self.size,
        ensures
            bucket_index == 0 ==> r == 0,
            bucket_index > 0 ==> r < bucket_index,
            bucket_index > 0 ==> {
                let p = (bucket_index - r) as u64;
                &&& r < p
                &&& p & ((p - 1) as u64) == 0
            },
            (r as u64) & (bucket_index as u64) == r as u64,
            r as u64 == parent_bucket(bucket_index as u64),
    {
        let b = bucket_index as u64;
        let mut parent: u64 = self.size as u64;
        proof {
            lemma_mod_pow2_is_mask(0, parent, self.size_log@);
        }
        while (parent >> 1u64) > b
            invariant
                parent > b,
                parent != 0,
                parent & ((parent - 1) as u64) == 0,
            decreases parent,
        {
            let next = parent >> 1u64;
            assert(next < parent && next != 0 && next & ((next - 1) as u64) == 0) by (bit_vector)
                requires
                    next == parent >> 1u64,
                    next > b,
                    parent != 0,
                    parent & ((parent - 1) as u64) == 0,
            ;
            parent = next;
        }
        let half = parent >> 1u64;
        assert(half <= b && ((b - half) as u64) & b == (b - half) as u64 && (b > 0 ==> ((b
            - half) < half && half & ((half - 1) as u64) == 0)) && (b == 0 ==> half == 0) && (b > 0 ==> half > 0) && (b > 0 ==> parent == half * 2)) by (bit_vector)
            requires
                half == parent >> 1u64,
                half <= b,
                b < parent,
                parent != 0,
                parent & ((parent - 1) as u64) == 0,
        ;
        proof {
            if b > 0 {
                lemma_high_bit(b, half);
            }
        }
        bucket_index - half as usize
    }

    /// Places a cursor on the first entry whose key is not below `key`.
    fn cursor_at(&self, key: u64) -> (pos: usize)
        requires
            self.sorted(),
        ensures
            pos <= self.list.len(),
            forall|i: int| 0 <= i < pos ==> (#[trigger] self.list@[i]).0 < key,
            forall|i: int| pos <= i < self.list.len() ==> (#[trigger] self.list@[i]).0 >= key,
    {
        let mut lo: usize = 0;
        let mut hi: usize = self.list.len();
        while lo < hi
            invariant
                self.sorted(),
                lo <= hi <= self.list.len(),
                forall|i: int| 0 <= i < lo ==> (#[trigger] self.list@[i]).0 < key,
                forall|i: int| hi <= i < self.list.len() ==> (#[trigger] self.list@[i]).0 >= key,
            decreases hi - lo,
        {
            let mid = lo + (hi - lo) / 2;
            if self.list[mid].0 < key {
                lo = mid + 1;
            } else {
                hi = mid;
            }
        }
        lo
    }

    /// Moves a cursor forward from `start` to the first entry whose key is
    /// not below `key`, and tells whether that entry has exactly `key`.
    fn find_from(&self, start: usize, key: u64) -> (r: (usize, bool))
        requires
            self.sorted(),
            start <= self.list.len(),
            forall|i: int| 0 <= i < start ==> (#[trigger] self.list@[i]).0 < key,
        ensures
            start <= r.0 <= self.list.len(),
            forall|i: int| 0 <= i < r.0 ==> (#[trigger] self.list@[i]).0 < key,
            forall|i: int| r.0 < i < self.list.len() ==> (#[trigger] self.list@[i]).0 > key,
            r.0 < self.list.len() ==> self.list@[r.0 as int].0 >= key,
            r.1 == (r.0 < self.list.len() && self.list@[r.0 as int].0 == key),
            r.1 == self.has_key(key),
    {
        let mut pos = start;
        while pos < self.list.len() && self.list[pos].0 < key
            invariant
                self.sorted(),
                start <= pos <= self.list.len(),
                forall|i: int| 0 <= i < pos ==> (#[trigger] self.list@[i]).0 < key,
            decreases self.list.len() - pos,
        {
            pos = pos + 1;
        }
        let found = pos < self.list.len() && self.list[pos].0 == key;
        proof {
            if pos < self.list.len() {
                assert forall|i: int| pos < i < self.list.len() implies (#[trigger] self.list@[i]).0 > key by {
                    assert(self.list@[pos as int].0 < self.list@[i].0);
                }
            }
            if !found {
                assert forall|i: int| 0 <= i < self.list.len() implies (#[trigger] self.list@[i]).0 != key by {
                    if i > pos {
                        assert(self.list@[pos as int].0 < self.list@[i].0);
                    }
                }
            }
        }
        (pos, found)
    }

    /// Splices the sentinel of bucket `child_index` into the list after the
    /// sentinel of its parent bucket, unless it is there already, and
    /// records it in the bucket table.
    #[verifier::rlimit(80)]
    fn make_sentinel(&mut self, parent_index: usize, child_index: usize)
        requires
            old(self).wf(),
            old(self).buckets.slot(parent_index as u64) is Some,
            child_index < old(self).size,
            (parent_index as u64) & (child_index as u64) == parent_index as u64,
            child_index > 0,
            parent_index as u64 == parent_bucket(child_index as u64),
        ensures
            final(self).wf(),
            final(self).view() == old(self).view(),
            final(self).size == old(self).size,
            final(self).size_log == old(self).size_log,
            final(self).bucket(child_index as u64) == Some(rev(child_index as u64)),
            final(self).keeps_buckets_of(*old(self)),
            old(self).bucket(child_index as u64) is Some ==> final(self).list@ == old(self).list@,
    {
        let key = reverse_bits(child_index as u64);
        let parent_key = self.buckets.get(parent_index).unwrap();
        proof {
            lemma_rev_submask(parent_index as u64, child_index as u64);
            assert(self.has_key(parent_key));
            let sz = self.size as u64;
            let c = child_index as u64;
            lemma_mod_pow2_is_mask(0, sz, self.size_log@);
            assert(c < 0x8000000000000000u64) by (bit_vector)
                requires
                    c < sz,
                    sz & ((sz - 1) as u64) == 0,
                    sz != 0,
            ;
            lemma_sentinel_key(child_index);
        }
        let start = self.cursor_at(parent_key);
        let (pos, found) = self.find_from(start, key);
        let ghost prev = *self;
        if !found {
            self.list.insert(pos, (key, None));
            self.sentinels = Ghost(self.sentinels@ + 1);
            proof {
                lemma_seq_has_insert(prev.list@, pos as int, (key, None));
                lemma_sorted_insert(prev.list@, pos as int, (key, None));
                assert forall|i: int| 0 <= i < self.list.len() implies entry_ok(self.model@, #[trigger] self.list@[i]) by {
                    if i < pos {
                        assert(self.list@[i] == prev.list@[i]);
                    } else if i > pos {
                        assert(self.list@[i] == prev.list@[i - 1]);
                    }
                }
            }
        }
        let ghost mid = *self;
        self.buckets.set(child_index, key);
        proof {
            assert(self.has_key(key));
            assert(forall|o: u64| prev.has_key(o) ==> #[trigger] mid.has_key(o));
            assert(prev.has_key(parent_key));
            assert(self.list.len() > 0);
            assert forall|b: u64| #![trigger self.buckets.slot(b)]
                self.buckets.slot(b) is Some implies {
                    &&& b < self.size
                    &&& self.buckets.slot(b) == Some(rev(b))
                    &&& self.has_key(rev(b))
                    &&& b != 0 ==> self.buckets.slot(parent_bucket(b)) is Some
                } by {
                if b != child_index as u64 {
                    assert(prev.buckets.slot(b) is Some);
                    assert(b != 0 ==> prev.buckets.slot(parent_bucket(b)) is Some);
                }
            }
            assert forall|b: u64| #[trigger] old(self).bucket(b) is Some implies self.bucket(b)
                == old(self).bucket(b) by {
                assert(old(self).buckets.slot(b) is Some);
            }
            assert forall|k: usize|
                #[trigger] self.model@.contains_key(k) implies valid_key(k) && self.has_key(
                    ordinary_key(k),
                ) by {
                assert(prev.has_key(ordinary_key(k)));
            }
        }
    }

    /// Initializes bucket `bucket_index`: bucket `0` by putting its sentinel
    /// at the head of the list, any other after initializing its parent.
    fn initialize_bucket(&mut self, bucket_index: usize)
        requires
            old(self).wf(),
            bucket_index < old(self).size,
        ensures
            final(self).wf(),
            final(self).view() == old(self).view(),
            final(self).size == old(self).size,
            final(self).size_log == old(self).size_log,
            final(self).ancestors_ready(bucket_index as u64),
            final(self).keeps_buckets_of(*old(self)),
        decreases bucket_index,
    {
        let current = self.buckets.get(bucket_index);
        if bucket_index == 0 {
            if current.is_none() {
                let ghost prev = *self;
                proof {
                    lemma_rev_zero();
                }
                self.list.insert(0, (0u64, None));
                self.sentinels = Ghost(self.sentinels@ + 1);
                self.buckets.set(0, 0u64);
                proof {
                    lemma_seq_has_insert(prev.list@, 0, (0u64, None));
                    assert(self.list@[0] == (0u64, None::<V>));
                    assert(self.has_key(0));
                    assert forall|k: usize| #[trigger] self.model@.contains_key(k) implies false by {
                        assert(prev.has_key(ordinary_key(k)));
                    }
                    assert forall|b: u64| #![trigger self.buckets.slot(b)]
                        self.buckets.slot(b) is Some implies {
                            &&& b < self.size
                            &&& self.buckets.slot(b) == Some(rev(b))
                            &&& self.has_key(rev(b))
                            &&& b != 0 ==> self.buckets.slot(parent_bucket(b)) is Some
                        } by {
                        if b != 0 {
                            assert(prev.buckets.slot(b) is Some);
                            assert(prev.has_key(rev(b)));
                        }
                    }
                    assert forall|b: u64| #[trigger] prev.bucket(b) is Some implies self.bucket(b)
                        == prev.bucket(b) by {
                        assert(prev.buckets.slot(b) is Some);
                    }
                    lemma_pow2_pos(self.size_log@);
                }
            }
            proof {
                self.lemma_ancestors_ready(0);
            }
            return ;
        }
        let ghost start = *self;
        let parent_index = self.get_parent(bucket_index);
        if self.buckets.get(parent_index).is_none() {
            self.initialize_bucket(parent_index);
        }
        let ghost mid = *self;
        self.make_sentinel(parent_index, bucket_index);
        proof {
            self.lemma_ancestors_ready(bucket_index as u64);
            assert forall|b: u64| #[trigger] start.bucket(b) is Some implies self.bucket(b)
                == start.bucket(b) by {
                assert(mid.bucket(b) == start.bucket(b));
            }
        }
    }

    /// Places a cursor on the sentinel of bucket `index`, initializing the
    /// bucket first if it is not yet.
    #[verifier::rlimit(40)]
    fn lookup_bucket(&mut self, index: usize) -> (pos: usize)
        requires
            old(self).wf(),
            index < old(self).size,
        ensures
            final(self).wf(),
            final(self).view() == old(self).view(),
            final(self).size == old(self).size,
            final(self).size_log == old(self).size_log,
            pos < final(self).list.len(),
            final(self).bucket(index as u64) == Some(rev(index as u64)),
            final(self).keeps_buckets_of(*old(self)),
            final(self).list@[pos as int].0 == rev(index as u64),
            forall|i: int| 0 <= i < pos ==> (#[trigger] final(self).list@[i]).0 < rev(index as u64),
    {
        if self.buckets.get(index).is_none() {
            self.initialize_bucket(index);
            assert(self.bucket(index as u64) is Some);
        } else {
            assert(self.keeps_buckets_of(*old(self)));
        }
        let key = self.buckets.get(index).unwrap();
        assert(self.buckets.slot(index as u64) == Some(rev(index as u64)));
        let pos = self.cursor_at(key);
        proof {
            assert(self.has_key(key));
            let i = choose|i: int| 0 <= i < self.list.len() && (#[trigger] self.list@[i]).0 == key;
            if i > pos {
                assert(self.list@[pos as int].0 < self.list@[i].0);
            }
        }
        pos
    }

    /// Places a cursor on the entry of `key` if there is one, else where it
    /// would be inserted; the search starts at the sentinel of the key's
    /// bucket `key % size`.
    fn find(&mut self, key: &usize) -> (r: (usize, bool))
        requires
            old(self).wf(),
            valid_key(*key),
        ensures
            final(self).wf(),
            final(self).view() == old(self).view(),
            final(self).size == old(self).size,
            final(self).size_log == old(self).size_log,
            r.0 <= final(self).list.len(),
            final(self).list.len() > 0,
            final(self).keeps_buckets_of(*old(self)),
            forall|i: int| 0 <= i < r.0 ==> (#[trigger] final(self).list@[i]).0 < ordinary_key(*key),
            r.0 < final(self).list.len() ==> final(self).list@[r.0 as int].0 >= ordinary_key(*key),
            r.1 == (r.0 < final(self).list.len() && final(self).list@[r.0 as int].0 == ordinary_key(
                *key,
            )),
            r.1 == final(self).view().contains_key(*key),
    {
        let ordinary = reverse_bits((*key as u64) | HI_MASK);
        let size = self.size;
        let bucket = *key % size;
        let start = self.lookup_bucket(bucket);
        proof {
            lemma_rev_bucket_before_key(*key as u64, size as u64, self.size_log@);
            assert(bucket as u64 == (*key as u64) % (size as u64));
        }
        let r = self.find_from(start, ordinary);
        proof {
            self.lemma_has_ordinary(*key);
        }
        r
    }

    /// A valid key is in the map exactly when the list holds its ordinary
    /// key, and then under the key's value.
    proof fn lemma_has_ordinary(&self, key: usize)
        requires
            self.wf(),
            valid_key(key),
        ensures
            self.has_key(ordinary_key(key)) == self.view().contains_key(key),
            forall|i: int|
                0 <= i < self.list.len() && (#[trigger] self.list@[i]).0 == ordinary_key(key)
                    ==> self.list@[i].1 == Some(self.view()[key]),
    {
        lemma_ordinary_key(key);
        if self.has_key(ordinary_key(key)) {
            let i = choose|i: int|
                0 <= i < self.list.len() && (#[trigger] self.list@[i]).0 == ordinary_key(key);
            assert(self.list@[i].1 is Some);
        }
        assert forall|i: int|
            0 <= i < self.list.len() && (#[trigger] self.list@[i]).0 == ordinary_key(key)
                implies self.list@[i].1 == Some(self.view()[key]) by {
            assert(self.list@[i].1 is Some);
        }
    }

    /// The nearest initialized bucket on the way from `index` up to bucket
    /// `0`, if bucket `0` is initialized at all.
    fn initialized_ancestor(&self, index: usize) -> (r: Option<usize>)
        requires
            self.wf(),
            index < self.size,
        ensures
            r is None ==> self.list.len() == 0,
            r is Some ==> {
                &&& self.buckets.slot(r->0 as u64) is Some
                &&& (r->0 as u64) & (index as u64) == r->0 as u64
            },
    {
        let mut b = index;
        let ghost ib = index as u64;
        assert(ib & ib == ib) by (bit_vector);
        while b != 0 && self.buckets.get(b).is_none()
            invariant
                self.wf(),
                b < self.size,
                ib == index as u64,
                (b as u64) & ib == b as u64,
            decreases b,
        {
            let p = self.get_parent(b);
            let ghost (pb, bb) = (p as u64, b as u64);
            assert(pb & ib == pb) by (bit_vector)
                requires
                    pb & bb == pb,
                    bb & ib == bb,
            ;
            b = p;
        }
        if self.buckets.get(b).is_none() {
            None
        } else {
            Some(b)
        }
    }

    /// Returns the value of `key`, if the map holds it. The search starts at
    /// the sentinel of the key's bucket or, while that bucket is not yet
    /// initialized, at the sentinel of its nearest initialized ancestor,
    /// which comes before the key in split order as well.
    pub fn lookup(&self, key: &usize) -> (r: Option<&V>)
        requires
            self.wf(),
            valid_key(*key),
        ensures
            r is Some == lookup_result(self.view(), *key) is Some,
            r is Some ==> Some(*r->0) == lookup_result(self.view(), *key),
    {
        let ordinary = reverse_bits((*key as u64) | HI_MASK);
        let bucket = *key % self.size;
        proof {
            self.lemma_has_ordinary(*key);
        }
        match self.initialized_ancestor(bucket) {
            None => {
                proof {
                    if self.view().contains_key(*key) {
                        assert(self.has_key(ordinary_key(*key)));
                    }
                }
                None
            },
            Some(a) => {
                let sentinel = self.buckets.get(a).unwrap();
                let start = self.cursor_at(sentinel);
                proof {
                    lemma_rev_bucket_before_key(*key as u64, self.size as u64, self.size_log@);
                    assert(bucket as u64 == (*key as u64) % (self.size as u64));
                    lemma_rev_submask(a as u64, bucket as u64);
                }
                let (pos, found) = self.find_from(start, ordinary);
                if found {
                    match &self.list[pos].1 {
                        Some(v) => Some(v),
                        None => None,
                    }
                } else {
                    None
                }
            },
        }
    }

    /// Inserts `value` under `key`. If the map already holds `key`, it is
    /// left as it is and `value` comes back as the error.
    pub fn insert(&mut self, key: &usize, value: V) -> (r: Result<(), V>)
        requires
            old(self).wf(),
            valid_key(*key),
        ensures
            final(self).wf(),
            (final(self).view(), r) == insert_result(old(self).view(), *key, value),
            final(self).keeps_buckets_of(*old(self)),
            final(self).view().dom().finite(),
            final(self).bucket_count() == if r is Ok && final(self).view().len() > LOAD_FACTOR
                * old(self).bucket_count() {
                2 * old(self).bucket_count()
            } else {
                old(self).bucket_count()
            },
    {
        let (pos, found) = self.find(key);
        if found {
            return Err(value);
        }
        let ordinary = reverse_bits((*key as u64) | HI_MASK);
        let ghost prev = *self;
        let ghost entry = (ordinary, Some(value));
        self.list.insert(pos, (ordinary, Some(value)));
        let n = self.list.len();
        self.model = Ghost(self.model@.insert(*key, value));
        proof {
            lemma_ordinary_key(*key);
            lemma_seq_has_insert(prev.list@, pos as int, entry);
            lemma_sorted_insert(prev.list@, pos as int, entry);
            assert forall|i: int| 0 <= i < self.list.len() implies entry_ok(self.model@, #[trigger] self.list@[i]) by {
                let e = if i < pos {
                    prev.list@[i]
                } else if i > pos {
                    prev.list@[i - 1]
                } else {
                    entry
                };
                assert(self.list@[i] == e);
                if i != pos && e.1 is Some {
                    assert(user_key(e.0) != *key);
                }
            }
            assert forall|k: usize|
                #[trigger] self.model@.contains_key(k) implies valid_key(k) && self.has_key(
                    ordinary_key(k),
                ) by {
                if k != *key {
                    assert(prev.has_key(ordinary_key(k)));
                }
            }
            assert forall|b: u64| #![trigger self.buckets.slot(b)]
                self.buckets.slot(b) is Some implies self.has_key(rev(b)) by {
                assert(prev.has_key(rev(b)));
            }
        }
        proof {
            assert(self.model@.dom() == prev.model@.dom().insert(*key));
            assert(self.model@.len() == prev.model@.len() + 1);
            assert(self.list.len() == self.model@.len() + self.sentinels@);
        }
        self.count = self.count + 1;
        if self.size <= usize::MAX / LOAD_FACTOR && self.count > self.size * LOAD_FACTOR {
            proof {
                lemma2_to64();
                lemma_pow2_unfold(self.size_log@ + 1);
            }
            self.size = self.size * 2;
            self.size_log = Ghost(self.size_log@ + 1);
            proof {
                assert forall|b: u64| #![trigger self.buckets.slot(b)]
                    self.buckets.slot(b) is Some implies b < self.size by {
                    assert(prev.buckets.slot(b) is Some);
                }
                assert(self.size_log@ < 64);
                assert(self.size as nat == pow2(self.size_log@));
            }
        }
        proof {
            assert(prev.buckets.slot(0) is Some);
        }
        Ok(())
    }

    /// Removes `key` and returns its value; fails if the map does not hold
    /// `key`.
    pub fn delete(&mut self, key: &usize) -> (r: Result<V, ()>)
        requires
            old(self).wf(),
            valid_key(*key),
        ensures
            final(self).wf(),
            (final(self).view(), r) == delete_result(old(self).view(), *key),
            final(self).view().dom().finite(),
            final(self).keeps_buckets_of(*old(self)),
            final(self).bucket_count() == old(self).bucket_count(),
    {
        let (pos, found) = self.find(key);
        if !found {
            return Err(());
        }
        let ghost prev = *self;
        proof {
            prev.lemma_has_ordinary(*key);
            lemma_seq_has_remove(prev.list@, pos as int);
            lemma_ordinary_key(*key);
        }
        let (_, value) = self.list.remove(pos);
        self.model = Ghost(self.model@.remove(*key));
        self.count = self.count - 1;
        proof {
            assert forall|i: int| 0 <= i < self.list.len() implies entry_ok(self.model@, #[trigger] self.list@[i]) by {
                let j = if i < pos {
                    i
                } else {
                    i + 1
                };
                assert(self.list@[i] == prev.list@[j]);
                assert(prev.list@[j].0 != prev.list@[pos as int].0);
            }
            assert forall|i: int, j: int|
                0 <= i < j < self.list.len() implies (#[trigger] self.list@[i]).0 < (
                #[trigger] self.list@[j]).0 by {
                let i2 = if i < pos {
                    i
                } else {
                    i + 1
                };
                let j2 = if j < pos {
                    j
                } else {
                    j + 1
                };
                assert(self.list@[i] == prev.list@[i2]);
                assert(self.list@[j] == prev.list@[j2]);
            }
            assert forall|k: usize|
                #[trigger] self.model@.contains_key(k) implies valid_key(k) && self.has_key(
                    ordinary_key(k),
                ) by {
                assert(prev.has_key(ordinary_key(k)));
                if ordinary_key(k) == ordinary_key(*key) {
                    lemma_ordinary_key_injective(k, *key);
                }
            }
            assert forall|b: u64| #![trigger self.buckets.slot(b)]
                self.buckets.slot(b) is Some implies self.has_key(rev(b)) by {
                assert(prev.has_key(rev(b)));
                lemma_rev_involutive(b);
                lemma_mod_pow2_is_mask(0, self.size as u64, self.size_log@);
                let sz = self.size as u64;
                assert(b < 0x8000000000000000u64) by (bit_vector)
                    requires
                        b < sz,
                        sz & ((sz - 1) as u64) == 0,
                        sz != 0,
                ;
            }
        }
        match value {
            Some(v) => Ok(v),
            None => Err(()),
        }
    }

    /// The number of keys that the map holds.
    pub fn len(&self) -> (r: usize)
        requires
            self.wf(),
        ensures
            r == self.view().len(),
    {
        self.count
    }
}

impl<V> Default for SplitOrderedList<V> {
    fn default() -> (r: Self)
        ensures
            r.wf(),
            r.view() == Map::<usize, V>::empty(),
            r.view().dom().finite(),
            r.bucket_count() == 2,
    {
        Self::new()
    }
}

} // verus!
