//! Routing of keys to buckets, the mutation an append logs, the grouping of
//! logged mutations for a flush, and the statements sent to the database.

use std::collections::hash_map::DefaultHasher;
use std::hash::{BuildHasher, BuildHasherDefault};
use vstd::prelude::*;
use vstd::slice::slice_to_vec;
use vstd::utf8::{decode_utf8, encode_utf8, encode_utf8_decode_utf8, encode_utf8_valid_utf8, valid_utf8};

use crate::wal::{Mutation, MutationView, views};

verus! {

/// Number of buckets that keys are spread over.
pub const NUM_OF_BUCKET: u64 = 128;

/// Number of shards that values are spread over.
pub const NUM_OF_SHARDS: u64 = 8;

/// A name for the hash of a string under `DefaultHasher::new()`.
pub uninterp spec fn str_hash(s: Seq<char>) -> u64;

/// A name for the hash of a byte sequence under `DefaultHasher::new()`.
pub uninterp spec fn bytes_hash(b: Seq<u8>) -> u64;

/// Calls `BuildHasher::hash_one` of std with `DefaultHasher`: what hashing
/// `key` into a fresh `DefaultHasher::new()` and finishing gives. std
/// documents that every hasher made by `new` is the same (no per-process
/// seed), so the result is a function of the string, named `str_hash`; its
/// value, which std leaves free to change between releases, is not claimed.
#[verifier::external_body]
fn hash_str(key: &str) -> (r: u64)
    ensures
        r == str_hash(key@),
{
    BuildHasherDefault::<DefaultHasher>::default().hash_one(key)
}

/// Calls `BuildHasher::hash_one` of std with `DefaultHasher` on a byte
/// slice (hashed as a `Vec<u8>` is): a function of the bytes, named
/// `bytes_hash`; its value is not claimed.
#[verifier::external_body]
fn hash_bytes(value: &[u8]) -> (r: u64)
    ensures
        r == bytes_hash(value@),
{
    BuildHasherDefault::<DefaultHasher>::default().hash_one(value)
}

/// The bucket of a key.
pub open spec fn bucket_of(key: Seq<char>) -> i32 {
    (str_hash(key) % 128) as i32
}

/// The shard of a value.
pub open spec fn shard_of(value: Seq<u8>) -> i32 {
    (bytes_hash(value) % 8) as i32
}

/// A key's bucket is the hash of the whole key, modulo 128, and so lies in
/// 0..128.
pub proof fn lemma_bucket_is_key_hash(key: Seq<char>)
    ensures
        bucket_of(key) == str_hash(key) % 128,
        0 <= bucket_of(key) < 128,
        bucket_of(key) as u32 == str_hash(key) % 128,
{
}

/// The bucket that `key` is stored in: its hash modulo `NUM_OF_BUCKET`.
pub fn get_bucket_from_key(key: String) -> (b: i32)
    ensures
        b == bucket_of(key@),
        b == str_hash(key@) % 128,
        0 <= b < NUM_OF_BUCKET,
{
    let h = hash_str(key.as_str());
    (h % NUM_OF_BUCKET) as i32
}

/// The shard of `value`: its hash modulo `NUM_OF_SHARDS`.
pub fn get_shard_from_value(value: Vec<u8>) -> (s: i32)
    ensures
        s == shard_of(value@),
        s == bytes_hash(value@) % 8,
        0 <= s < NUM_OF_SHARDS,
{
    let h = hash_bytes(value.as_slice());
    (h % NUM_OF_SHARDS) as i32
}

/// The mutation that appending `value` under `key` logs.
pub open spec fn entry_mutation(key: Seq<char>, value: Seq<u8>) -> MutationView {
    MutationView {
        bucket: bucket_of(key) as u32,
        key_len: encode_utf8(key).len() as u32,
        val_len: value.len() as u32,
        key: encode_utf8(key),
        value: value,
    }
}

impl Mutation {
    /// The mutation logged for an append of `value` under `key`: the key's
    /// bucket, its UTF-8 bytes, the value, and both lengths (their low 32
    /// bits).
    pub fn for_entry(key: String, value: Vec<u8>) -> (m: Mutation)
        ensures
            m@ == entry_mutation(key@, value@),
            m.bucket == str_hash(key@) % 128,
            m.key@ == encode_utf8(key@),
            m.key_len == m.key@.len() as u32,
            m.value@ == value@,
            m.val_len == value@.len() as u32,
    {
        let key_bytes = key.as_str().as_bytes_vec();
        let bucket = get_bucket_from_key(key) as u32;
        #[verifier::truncate]
        let key_len = key_bytes.len() as u32;
        #[verifier::truncate]
        let val_len = value.len() as u32;
        Mutation { bucket, key_len, val_len, key: key_bytes, value }
    }
}


/// The key that mutations are grouped under for a flush: the bucket (as the
/// database's `int`) and the key bytes.
pub open spec fn group_key(m: MutationView) -> (i32, Seq<u8>) {
    (m.bucket as i32, m.key)
}

/// The distinct group keys of `ms`, in the order of their first appearance.
pub open spec fn keys_in_order(ms: Seq<MutationView>) -> Seq<(i32, Seq<u8>)>
    decreases ms.len(),
{
    if ms.len() == 0 {
        Seq::empty()
    } else {
        let prev = keys_in_order(ms.drop_last());
        if prev.contains(group_key(ms.last())) {
            prev
        } else {
            prev.push(group_key(ms.last()))
        }
    }
}

/// The values of the mutations of `ms` under group key `k`, in order.
pub open spec fn values_for(ms: Seq<MutationView>, k: (i32, Seq<u8>)) -> Seq<Seq<u8>>
    decreases ms.len(),
{
    if ms.len() == 0 {
        Seq::empty()
    } else {
        let prev = values_for(ms.drop_last(), k);
        if group_key(ms.last()) == k {
            prev.push(ms.last().value)
        } else {
            prev
        }
    }
}

/// The values of the mutations of `ms` whose bucket and key are `k`, in log
/// order: the subsequence of those mutations, mapped to their values.
pub open spec fn logged_values(ms: Seq<MutationView>, k: (i32, Seq<u8>)) -> Seq<Seq<u8>> {
    ms.filter(|m: MutationView| group_key(m) == k).map_values(|m: MutationView| m.value)
}

/// A group's values are the values logged under its key, in log order:
/// exactly the subsequence of the mutations with that bucket and key.
pub proof fn lemma_values_for_is_filter(ms: Seq<MutationView>, k: (i32, Seq<u8>))
    ensures
        values_for(ms, k) == logged_values(ms, k),
    decreases ms.len(),
{
    reveal(Seq::filter);
    let pred = |m: MutationView| group_key(m) == k;
    if ms.len() == 0 {
        assert(logged_values(ms, k) =~= Seq::<Seq<u8>>::empty());
    } else {
        lemma_values_for_is_filter(ms.drop_last(), k);
        let sub = ms.drop_last().filter(pred);
        assert(ms.filter(pred) == if pred(ms.last()) {
            sub.push(ms.last())
        } else {
            sub
        });
        if pred(ms.last()) {
            assert(ms.filter(pred).map_values(|m: MutationView| m.value) =~= sub.map_values(
                |m: MutationView| m.value,
            ).push(ms.last().value));
        }
    }
}

/// Logging one more mutation appends its value, last, to the values of its
/// own bucket and key, and leaves every other key's values as they were.
pub proof fn lemma_values_for_push(ms: Seq<MutationView>, m: MutationView, k: (i32, Seq<u8>))
    ensures
        values_for(ms.push(m), group_key(m)) == values_for(ms, group_key(m)).push(m.value),
        k != group_key(m) ==> values_for(ms.push(m), k) == values_for(ms, k),
{
    assert(ms.push(m).drop_last() =~= ms);
}

/// Every group key is the bucket and key of some logged mutation.
proof fn lemma_keys_from_mutations(ms: Seq<MutationView>)
    ensures
        forall|t: int|
            0 <= t < keys_in_order(ms).len() ==> exists|j: int|
                0 <= j < ms.len() && #[trigger] keys_in_order(ms)[t] == group_key(ms[j]),
    decreases ms.len(),
{
    if ms.len() > 0 {
        let init = ms.drop_last();
        lemma_keys_from_mutations(init);
        let keys = keys_in_order(ms);
        assert forall|t: int| 0 <= t < keys.len() implies exists|j: int|
            0 <= j < ms.len() && #[trigger] keys[t] == group_key(ms[j]) by {
            if t < keys_in_order(init).len() {
                let j = choose|j: int| 0 <= j < init.len() && keys_in_order(init)[t] == group_key(init[j]);
                assert(init[j] == ms[j]);
            } else {
                assert(keys[t] == group_key(ms[ms.len() - 1]));
            }
        }
    }
}

/// The values logged under one group key.
#[derive(Debug)]
pub struct MutationGroup {
    pub bucket: i32,
    pub key: Vec<u8>,
    pub values: Vec<Vec<u8>>,
}

/// The byte sequences of a list of values.
pub open spec fn value_views(vs: Seq<Vec<u8>>) -> Seq<Seq<u8>> {
    vs.map_values(|v: Vec<u8>| v@)
}

/// `groups` holds, in order, one group per key of `keys`, each with the
/// values of `ms` under that key.
pub open spec fn groups_match(groups: Seq<MutationGroup>, ms: Seq<MutationView>) -> bool {
    let keys = keys_in_order(ms);
    &&& groups.len() == keys.len()
    &&& forall|i: int|
        0 <= i < groups.len() ==> {
            &&& (#[trigger] groups[i]).bucket == keys[i].0
            &&& groups[i].key@ == keys[i].1
            &&& value_views(groups[i].values@) == values_for(ms, keys[i])
        }
}

/// A key that no mutation of `ms` has collects no values.
proof fn lemma_values_for_absent(ms: Seq<MutationView>, k: (i32, Seq<u8>))
    requires
        !keys_in_order(ms).contains(k),
    ensures
        values_for(ms, k) == Seq::<Seq<u8>>::empty(),
    decreases ms.len(),
{
    if ms.len() > 0 {
        let prev = keys_in_order(ms.drop_last());
        if prev.contains(k) {
            let j = choose|j: int| 0 <= j < prev.len() && prev[j] == k;
            assert(keys_in_order(ms)[j] == k);
        }
        if group_key(ms.last()) == k {
            assert(keys_in_order(ms)[prev.len() as int] == k);
        }
        lemma_values_for_absent(ms.drop_last(), k);
    }
}

/// The group keys of `ms` are distinct.
proof fn lemma_keys_distinct(ms: Seq<MutationView>)
    ensures
        keys_in_order(ms).no_duplicates(),
    decreases ms.len(),
{
    if ms.len() > 0 {
        lemma_keys_distinct(ms.drop_last());
    }
}

/// Every mutation's group key is among the group keys.
proof fn lemma_key_present(ms: Seq<MutationView>, i: int)
    requires
        0 <= i < ms.len(),
    ensures
        keys_in_order(ms).contains(group_key(ms[i])),
    decreases ms.len(),
{
    if i < ms.len() - 1 {
        lemma_key_present(ms.drop_last(), i);
        let prev = keys_in_order(ms.drop_last());
        let j = choose|j: int| 0 <= j < prev.len() && prev[j] == group_key(ms[i]);
        assert(keys_in_order(ms)[j] == group_key(ms[i]));
    } else {
        let prev = keys_in_order(ms.drop_last());
        if !prev.contains(group_key(ms.last())) {
            assert(keys_in_order(ms)[prev.len() as int] == group_key(ms[i]));
        }
    }
}

/// Whether two byte slices hold the same bytes.
fn bytes_equal(a: &[u8], b: &[u8]) -> (r: bool)
    ensures
        r == (a@ == b@),
{
    if a.len() != b.len() {
        return false;
    }
    let mut i: usize = 0;
    while i < a.len()
        invariant
            a@.len() == b@.len(),
            i <= a@.len(),
            forall|j: int| 0 <= j < i ==> a@[j] == b@[j],
        decreases a@.len() - i,
    {
        if a[i] != b[i] {
            return false;
        }
        i = i + 1;
    }
    assert(a@ =~= b@);
    true
}

/// Groups logged mutations by bucket and key: one group per distinct
/// (bucket, key), in the order in which each first appears, holding the
/// values logged under it in log order.
pub fn group_mutations(mutations: &Vec<Mutation>) -> (groups: Vec<MutationGroup>)
    ensures
        groups_match(groups@, views(mutations@)),
        forall|i: int|
            0 <= i < groups@.len() ==> value_views((#[trigger] groups@[i]).values@) == logged_values(
                views(mutations@),
                (groups@[i].bucket, groups@[i].key@),
            ),
        forall|i: int|
            0 <= i < groups@.len() ==> exists|j: int|
                0 <= j < mutations@.len() && group_key(mutations@[j]@) == (
                    (#[trigger] groups@[i]).bucket,
                    groups@[i].key@,
                ),
        forall|j: int|
            0 <= j < mutations@.len() ==> exists|i: int|
                0 <= i < groups@.len() && group_key((#[trigger] mutations@[j])@) == (
                    groups@[i].bucket,
                    groups@[i].key@,
                ),
        forall|i1: int, i2: int|
            0 <= i1 < i2 < groups@.len() ==> ((#[trigger] groups@[i1]).bucket, groups@[i1].key@) != (
                (#[trigger] groups@[i2]).bucket,
                groups@[i2].key@,
            ),
{
    let ghost ms = views(mutations@);
    let mut groups: Vec<MutationGroup> = Vec::new();
    let mut i: usize = 0;
    while i < mutations.len()
        invariant
            ms == views(mutations@),
            i <= mutations@.len(),
            groups_match(groups@, ms.take(i as int)),
        decreases mutations@.len() - i,
    {
        let m = &mutations[i];
        #[verifier::truncate]
        let bucket = m.bucket as i32;
        let ghost pre = ms.take(i as int);
        let ghost post = ms.take(i + 1);
        let ghost k = group_key(m@);
        assert(post.drop_last() =~= pre);
        assert(post.last() == m@);
        proof {
            lemma_keys_distinct(pre);
        }
        let mut j: usize = 0;
        let mut found = false;
        while j < groups.len()
            invariant_except_break
                !found,
            invariant
                groups_match(groups@, pre),
                j <= groups@.len(),
                bucket == k.0,
                m.key@ == k.1,
                forall|t: int| 0 <= t < j ==> keys_in_order(pre)[t] != k,
            ensures
                found ==> j < groups@.len() && keys_in_order(pre)[j as int] == k,
                !found ==> forall|t: int| 0 <= t < groups@.len() ==> keys_in_order(pre)[t] != k,
            decreases groups@.len() - j,
        {
            if groups[j].bucket == bucket && bytes_equal(groups[j].key.as_slice(), m.key.as_slice()) {
                found = true;
                break;
            }
            j = j + 1;
        }
        let value = slice_to_vec(m.value.as_slice());
        if found {
            let ghost old_groups = groups@;
            assert(keys_in_order(pre)[j as int] == k);
            assert(keys_in_order(pre).contains(k));
            assert(keys_in_order(post) == keys_in_order(pre));
            groups[j].values.push(value);
            assert forall|t: int| 0 <= t < groups@.len() implies {
                &&& (#[trigger] groups@[t]).bucket == keys_in_order(post)[t].0
                &&& groups@[t].key@ == keys_in_order(post)[t].1
                &&& value_views(groups@[t].values@) == values_for(post, keys_in_order(post)[t])
            } by {
                if t == j {
                    assert(groups@[t].values@ == old_groups[t].values@.push(value));
                    assert(value_views(groups@[t].values@) =~= value_views(old_groups[t].values@).push(m@.value));
                } else {
                    assert(groups@[t] == old_groups[t]);
                    assert(keys_in_order(pre)[t] != k);
                }
            }
        } else {
            let ghost old_groups = groups@;
            assert(!keys_in_order(pre).contains(k));
            proof {
                lemma_values_for_absent(pre, k);
            }
            let mut values: Vec<Vec<u8>> = Vec::new();
            values.push(value);
            let key = slice_to_vec(m.key.as_slice());
            groups.push(MutationGroup { bucket, key, values });
            assert(keys_in_order(post) == keys_in_order(pre).push(k));
            assert forall|t: int| 0 <= t < groups@.len() implies {
                &&& (#[trigger] groups@[t]).bucket == keys_in_order(post)[t].0
                &&& groups@[t].key@ == keys_in_order(post)[t].1
                &&& value_views(groups@[t].values@) == values_for(post, keys_in_order(post)[t])
            } by {
                if t == old_groups.len() {
                    assert(value_views(groups@[t].values@) =~= seq![m@.value]);
                    assert(values_for(post, k) =~= seq![m@.value]);
                } else {
                    assert(groups@[t] == old_groups[t]);
                    assert(keys_in_order(pre)[t] != k);
                }
            }
        }
        i = i + 1;
    }
    assert(ms.take(i as int) =~= ms);
    proof {
        let keys = keys_in_order(ms);
        lemma_keys_distinct(ms);
        lemma_keys_from_mutations(ms);
        assert forall|t: int| 0 <= t < groups@.len() implies value_views((#[trigger] groups@[t]).values@)
            == logged_values(ms, (groups@[t].bucket, groups@[t].key@)) by {
            assert((groups@[t].bucket, groups@[t].key@) == keys[t]);
            lemma_values_for_is_filter(ms, keys[t]);
        }
        assert forall|t: int| 0 <= t < groups@.len() implies exists|j: int|
            0 <= j < mutations@.len() && group_key(mutations@[j]@) == (
                (#[trigger] groups@[t]).bucket,
                groups@[t].key@,
            ) by {
            assert((groups@[t].bucket, groups@[t].key@) == keys[t]);
            let j = choose|j: int| 0 <= j < ms.len() && keys[t] == group_key(ms[j]);
            assert(ms[j] == mutations@[j]@);
        }
        assert forall|j: int| 0 <= j < mutations@.len() implies exists|t: int|
            0 <= t < groups@.len() && group_key((#[trigger] mutations@[j])@) == (
                groups@[t].bucket,
                groups@[t].key@,
            ) by {
            assert(ms[j] == mutations@[j]@);
            lemma_key_present(ms, j);
            let t = choose|t: int| 0 <= t < keys.len() && keys[t] == group_key(ms[j]);
            assert((groups@[t].bucket, groups@[t].key@) == keys[t]);
        }
        assert forall|i1: int, i2: int| 0 <= i1 < i2 < groups@.len() implies ((#[trigger] groups@[i1]).bucket,
            groups@[i1].key@) != ((#[trigger] groups@[i2]).bucket, groups@[i2].key@) by {
            assert((groups@[i1].bucket, groups@[i1].key@) == keys[i1]);
            assert((groups@[i2].bucket, groups@[i2].key@) == keys[i2]);
        }
    }
    groups
}


/// The group that one flush writes to the database: the group of the first
/// logged mutation, holding every value logged under its bucket and key, or
/// nothing when nothing was logged.
pub fn flush_batch(mutations: &Vec<Mutation>) -> (g: Option<MutationGroup>)
    ensures
        match g {
            None => mutations@.len() == 0,
            Some(g) => {
                let k = group_key(mutations@[0]@);
                &&& mutations@.len() > 0
                &&& g.bucket == k.0
                &&& g.key@ == k.1
                &&& value_views(g.values@) == values_for(views(mutations@), k)
                &&& value_views(g.values@) == logged_values(views(mutations@), k)
            },
        },
{
    let mut groups = group_mutations(mutations);
    if groups.len() == 0 {
        proof {
            if mutations@.len() > 0 {
                lemma_key_present(views(mutations@), 0);
            }
        }
        return None;
    }
    proof {
        let ms = views(mutations@);
        lemma_key_present(ms, 0);
        lemma_first_key(ms);
    }
    proof {
        let ms = views(mutations@);
        lemma_values_for_is_filter(ms, group_key(ms[0]));
        assert(ms[0] == mutations@[0]@);
    }
    let g = groups.remove(0);
    Some(g)
}

/// The first group key is that of the first mutation.
proof fn lemma_first_key(ms: Seq<MutationView>)
    requires
        ms.len() > 0,
    ensures
        keys_in_order(ms).len() > 0,
        keys_in_order(ms)[0] == group_key(ms[0]),
    decreases ms.len(),
{
    if ms.len() > 1 {
        lemma_first_key(ms.drop_last());
        assert(ms.drop_last()[0] == ms[0]);
    } else {
        assert(ms.drop_last() =~= Seq::<MutationView>::empty());
        assert(keys_in_order(ms.drop_last()) == Seq::<(i32, Seq<u8>)>::empty());
        assert(ms.last() == ms[0]);
    }
}

/// Every logged mutation belongs to a group: its bucket and key are among the
/// group keys.
pub proof fn lemma_every_mutation_grouped(ms: Seq<MutationView>, i: int)
    requires
        0 <= i < ms.len(),
    ensures
        keys_in_order(ms).contains(group_key(ms[i])),
        values_for(ms, group_key(ms[i])).len() > 0,
{
    lemma_key_present(ms, i);
    lemma_values_for_present(ms, i);
}

/// A key that some mutation has collects at least its value.
proof fn lemma_values_for_present(ms: Seq<MutationView>, i: int)
    requires
        0 <= i < ms.len(),
    ensures
        values_for(ms, group_key(ms[i])).len() > 0,
    decreases ms.len(),
{
    if i < ms.len() - 1 {
        lemma_values_for_present(ms.drop_last(), i);
    }
}

/// Group keys are distinct: no two groups share a bucket and key.
pub proof fn lemma_group_keys_distinct(ms: Seq<MutationView>)
    ensures
        keys_in_order(ms).no_duplicates(),
{
    lemma_keys_distinct(ms);
}

/// How many values the groups of `keys` hold together.
pub open spec fn total_values(ms: Seq<MutationView>, keys: Seq<(i32, Seq<u8>)>) -> nat
    decreases keys.len(),
{
    if keys.len() == 0 {
        0
    } else {
        total_values(ms, keys.drop_last()) + values_for(ms, keys.last()).len()
    }
}

/// One more mutation adds one value to exactly the group of its key, if that
/// group is among `keys`.
proof fn lemma_total_values_push(ms: Seq<MutationView>, m: MutationView, keys: Seq<(i32, Seq<u8>)>)
    requires
        keys.no_duplicates(),
    ensures
        total_values(ms.push(m), keys) == total_values(ms, keys) + if keys.contains(group_key(m)) {
            1int
        } else {
            0int
        },
    decreases keys.len(),
{
    assert(ms.push(m).drop_last() =~= ms);
    if keys.len() > 0 {
        let init = keys.drop_last();
        assert(init.no_duplicates());
        lemma_total_values_push(ms, m, init);
        if keys.last() == group_key(m) {
            if init.contains(group_key(m)) {
                let j = choose|j: int| 0 <= j < init.len() && init[j] == group_key(m);
                assert(keys[j] == keys[keys.len() - 1]);
            }
        } else {
            if keys.contains(group_key(m)) {
                let j = choose|j: int| 0 <= j < keys.len() && keys[j] == group_key(m);
                assert(init[j] == group_key(m));
            }
            if init.contains(group_key(m)) {
                let j = choose|j: int| 0 <= j < init.len() && init[j] == group_key(m);
                assert(keys[j] == group_key(m));
            }
        }
    }
}

/// Grouping loses and repeats nothing: the groups hold as many values
/// together as there are logged mutations.
pub proof fn lemma_groups_hold_every_value(ms: Seq<MutationView>)
    ensures
        total_values(ms, keys_in_order(ms)) == ms.len(),
    decreases ms.len(),
{
    if ms.len() > 0 {
        let init = ms.drop_last();
        let m = ms.last();
        assert(init.push(m) =~= ms);
        lemma_groups_hold_every_value(init);
        lemma_keys_distinct(init);
        lemma_total_values_push(init, m, keys_in_order(init));
        let prev = keys_in_order(init);
        if !prev.contains(group_key(m)) {
            lemma_values_for_absent(init, group_key(m));
            let keys = prev.push(group_key(m));
            assert(keys.drop_last() =~= prev);
            assert(values_for(ms, group_key(m)).len() == 1);
        }
    }
}

/// The key of a database row as a string, from the bytes it was logged as.
pub open spec fn stored_key(m: MutationView) -> Seq<char> {
    decode_utf8(m.key)
}

/// An append and a later get meet: the mutation logged for `key` lands in the
/// bucket that a get of `key` queries, under `key` itself (its bytes decode
/// back to it as UTF-8), and the logged value is the appended one.
pub proof fn lemma_append_reaches_get(key: Seq<char>, value: Seq<u8>)
    ensures
        entry_mutation(key, value).bucket as i32 == bucket_of(key),
        group_key(entry_mutation(key, value)).0 == bucket_of(key),
        valid_utf8(entry_mutation(key, value).key),
        stored_key(entry_mutation(key, value)) == key,
        entry_mutation(key, value).value == value,
{
    encode_utf8_valid_utf8(key);
    encode_utf8_decode_utf8(key);
}

/// An append logs a well-formed mutation when the key's bytes and the value
/// each fit the 32-bit length fields.
pub proof fn lemma_entry_well_formed(key: Seq<char>, value: Seq<u8>)
    requires
        encode_utf8(key).len() <= u32::MAX,
        value.len() <= u32::MAX,
    ensures
        entry_mutation(key, value).well_formed(),
{
}


/// Where the store keeps its rows: a keyspace and a table in it.
#[derive(Debug)]
pub struct KvMeta {
    pub keyspace: String,
    pub table: String,
}

impl KvMeta {
    /// The statement that creates the keyspace, replicated twice with the
    /// simple strategy, unless it exists.
    pub fn create_keyspace_query(&self) -> (q: String)
        ensures
            q@ == "\n            CREATE KEYSPACE IF NOT EXISTS "@ + self.keyspace@ + "\n            WITH REPLICATION = {\n                'class': 'SimpleStrategy',\n                'replication_factor': 2\n            };\n            "@,
    {
        let mut q = String::from_str("\n            CREATE KEYSPACE IF NOT EXISTS ");
        q.append(self.keyspace.as_str());
        q.append("\n            WITH REPLICATION = {\n                'class': 'SimpleStrategy',\n                'replication_factor': 2\n            };\n            ");
        q
    }

    /// The statement that creates the table, unless it exists: rows of a
    /// bucket, a key and a value, the bucket and key forming the partition
    /// key and the value the clustering column.
    pub fn create_table_query(&self) -> (q: String)
        ensures
            q@ == "\n            CREATE TABLE IF NOT EXISTS "@ + self.keyspace@ + "."@ + self.table@ + " (\n                bucket int,\n                key text,\n                value blob,\n                PRIMARY KEY((bucket, key), value)\n            );\n            "@,
    {
        let mut q = String::from_str("\n            CREATE TABLE IF NOT EXISTS ");
        q.append(self.keyspace.as_str());
        q.append(".");
        q.append(self.table.as_str());
        q.append(" (\n                bucket int,\n                key text,\n                value blob,\n                PRIMARY KEY((bucket, key), value)\n            );\n            ");
        q
    }

    /// The statement that writes one row, bound to a bucket, a key and a
    /// value.
    pub fn insert_statement(&self) -> (q: String)
        ensures
            q@ == "INSERT INTO "@ + self.keyspace@ + "."@ + self.table@ + " (bucket, key, value) values(?,?,?)"@,
    {
        let mut q = String::from_str("INSERT INTO ");
        q.append(self.keyspace.as_str());
        q.append(".");
        q.append(self.table.as_str());
        q.append(" (bucket, key, value) values(?,?,?)");
        q
    }

    /// The statement that reads the values of a key, bound to its bucket and
    /// the key.
    pub fn select_statement(&self) -> (q: String)
        ensures
            q@ == "SELECT value FROM "@ + self.keyspace@ + "."@ + self.table@ + " WHERE bucket = ? AND key = ?"@,
    {
        let mut q = String::from_str("SELECT value FROM ");
        q.append(self.keyspace.as_str());
        q.append(".");
        q.append(self.table.as_str());
        q.append(" WHERE bucket = ? AND key = ?");
        q
    }
}

} // verus!
