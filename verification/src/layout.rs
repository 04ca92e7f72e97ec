//! What an archive holds, stated over plain sequences: the key order of its
//! members, where each payload lies in the blob, and which entries the
//! index gets.

use crate::archive::BuildError;
use crate::compress::gz_encoded;
use crate::index::{encoded_index, IndexError};
use crate::key::{
    key_lt, lemma_key_lt_irreflexive, lemma_key_lt_transitive, lemma_key_lt_trichotomy,
};
use crate::order::{lemma_map_keeps_items, positions};
use crate::slice::{fits_field, packed_range};
use vstd::prelude::*;
use vstd::seq_lib::{
    lemma_multiset_commutative, to_multiset_build, to_multiset_contains, to_multiset_insert,
    to_multiset_len, to_multiset_remove,
};

verus! {

/// What the contracts see of a file: its key and its bytes.
pub struct Member {
    pub key: Seq<u8>,
    pub data: Seq<u8>,
}

/// What the contracts see of an archive.
pub struct ArchiveView {
    pub index: Seq<u8>,
    pub blob: Seq<u8>,
}

/// The members at the given positions, in that order.
pub open spec fn arranged(all: Seq<Member>, order: Seq<usize>) -> Seq<Member> {
    order.map_values(|p: usize| all[p as int])
}

/// Whether each member's key comes strictly before the keys of all members
/// after it.
pub open spec fn keys_ascend(s: Seq<Member>) -> bool {
    forall|i: int, j: int| 0 <= i < j < s.len() ==> key_lt(#[trigger] s[i].key, #[trigger] s[j].key)
}

/// Whether no two members have the same key.
pub open spec fn distinct_keys(s: Seq<Member>) -> bool {
    forall|i: int, j: int| 0 <= i < j < s.len() ==> #[trigger] s[i].key != #[trigger] s[j].key
}

/// Whether `sorted` holds the members of `all`, each as often, in strictly
/// ascending key order.
pub open spec fn is_key_order(all: Seq<Member>, sorted: Seq<Member>) -> bool {
    sorted.to_multiset() == all.to_multiset() && keys_ascend(sorted)
}

/// The members in key order. Where no two keys are the same there is
/// exactly one such arrangement (`lemma_key_order_exists`,
/// `lemma_key_order_unique`).
pub open spec fn key_order(all: Seq<Member>) -> Seq<Member> {
    choose|sorted: Seq<Member>| is_key_order(all, sorted)
}

/// The lengths of the members' payloads, in the order of the members.
pub open spec fn payload_lengths(s: Seq<Member>) -> Seq<int> {
    s.map_values(|m: Member| m.data.len() as int)
}

/// The offset at which payload `i` starts when payloads of the given
/// lengths lie one after the other: the lengths before it, added up.
pub open spec fn offset_at(lengths: Seq<int>, i: int) -> int
    decreases i,
{
    if i <= 0 {
        0
    } else {
        offset_at(lengths, i - 1) + lengths[i - 1]
    }
}

/// Whether every payload's offset and length fit a packed range.
pub open spec fn ranges_fit(lengths: Seq<int>) -> bool {
    forall|i: int|
        0 <= i < lengths.len() ==> fits_field(#[trigger] offset_at(lengths, i)) && fits_field(
            lengths[i],
        )
}

/// The packed range of each payload.
pub open spec fn packed_ranges(lengths: Seq<int>) -> Seq<u64> {
    Seq::new(lengths.len(), |i: int| packed_range(offset_at(lengths, i), lengths[i]) as u64)
}

/// The blob: the payloads one after the other, with nothing in between.
pub open spec fn blob_of(s: Seq<Member>) -> Seq<u8>
    decreases s.len(),
{
    if s.len() == 0 {
        Seq::empty()
    } else {
        blob_of(s.drop_last()) + s.last().data
    }
}

/// The index entries of members laid out in the given order: each key with
/// the packed range of its payload.
pub open spec fn index_entries(s: Seq<Member>) -> Seq<(Seq<u8>, u64)> {
    Seq::new(s.len(), |i: int| (s[i].key, packed_ranges(payload_lengths(s))[i]))
}

/// The archive that is assembled from the given payloads, or why there is
/// none.
pub open spec fn assembled(all: Seq<Member>) -> Result<ArchiveView, BuildError> {
    if all.len() == 0 {
        Err(BuildError::EmptyArchive)
    } else if !distinct_keys(all) {
        Err(BuildError::Index(IndexError::DuplicateKey))
    } else if !ranges_fit(payload_lengths(key_order(all))) {
        Err(BuildError::RangeOverflow)
    } else {
        Ok(
            ArchiveView {
                index: encoded_index(index_entries(key_order(all))),
                blob: blob_of(key_order(all)),
            },
        )
    }
}

/// The payloads of the given files, in the order of the files: each file
/// with its content compressed. A file whose content the encoder fails on
/// is left out.
pub open spec fn compressed(files: Seq<Member>) -> Seq<Member>
    decreases files.len(),
{
    if files.len() == 0 {
        Seq::empty()
    } else {
        match gz_encoded(files.last().data) {
            Some(stream) => compressed(files.drop_last()).push(
                Member { key: files.last().key, data: stream },
            ),
            None => compressed(files.drop_last()),
        }
    }
}

/// The positions of the files that are left out, in ascending order: those
/// on whose content the encoder fails.
pub open spec fn skipped(files: Seq<Member>) -> Seq<int>
    decreases files.len(),
{
    if files.len() == 0 {
        Seq::empty()
    } else {
        match gz_encoded(files.last().data) {
            Some(_) => skipped(files.drop_last()),
            None => skipped(files.drop_last()).push(files.len() - 1),
        }
    }
}

/// The archive that is built from the given files, or why there is none.
pub open spec fn built(files: Seq<Member>) -> Result<ArchiveView, BuildError> {
    assembled(compressed(files))
}

/// Two members of one sequence with the same key, at different places, mean
/// that every sequence that holds the same members has a key twice.
pub proof fn lemma_repeated_key(all: Seq<Member>, s: Seq<Member>, i: int, j: int)
    requires
        s.to_multiset() == all.to_multiset(),
        0 <= i < j < s.len(),
        s[i].key == s[j].key,
    ensures
        !distinct_keys(all),
{
    to_multiset_contains(s, s[i]);
    to_multiset_contains(all, s[i]);
    to_multiset_contains(s, s[j]);
    to_multiset_contains(all, s[j]);
    assert(s.contains(s[i]) && s.contains(s[j]));
    let a = choose|a: int| 0 <= a < all.len() && all[a] == s[i];
    let b = choose|b: int| 0 <= b < all.len() && all[b] == s[j];
    if a == b {
        // One member stands at two places of `s`, so it stands at two
        // places of `all` too.
        let s1 = s.remove(j);
        to_multiset_remove(s, j);
        assert(s1[i] == s[i]);
        to_multiset_contains(s1, s[i]);
        assert(s1.contains(s[i]));
        let all1 = all.remove(a);
        to_multiset_remove(all, a);
        to_multiset_contains(all1, s[i]);
        let c = choose|c: int| 0 <= c < all1.len() && all1[c] == s[i];
        if c < a {
            assert(all[c] == s[i]);
            assert(all[c].key == all[a].key);
        } else {
            assert(all[c + 1] == s[i]);
            assert(all[a].key == all[c + 1].key);
        }
    } else if a < b {
        assert(all[a].key == all[b].key);
    } else {
        assert(all[b].key == all[a].key);
    }
}

/// Members with a key twice cannot be put into strictly ascending order.
pub proof fn lemma_key_order_distinct(all: Seq<Member>, sorted: Seq<Member>)
    requires
        is_key_order(all, sorted),
    ensures
        distinct_keys(all),
{
    if !distinct_keys(all) {
        let (i, j) = choose|i: int, j: int|
            0 <= i < j < all.len() && #[trigger] all[i].key == #[trigger] all[j].key;
        lemma_repeated_key(sorted, all, i, j);
        let (a, b) = choose|a: int, b: int|
            0 <= a < b < sorted.len() && #[trigger] sorted[a].key == #[trigger] sorted[b].key;
        lemma_key_lt_irreflexive(sorted[a].key);
    }
}

/// There is at most one arrangement in key order.
pub proof fn lemma_key_order_unique(all: Seq<Member>, s1: Seq<Member>, s2: Seq<Member>)
    requires
        is_key_order(all, s1),
        is_key_order(all, s2),
    ensures
        s1 == s2,
    decreases s1.len(),
{
    to_multiset_len(s1);
    to_multiset_len(s2);
    if s1.len() == 0 {
        assert(s1 =~= s2);
    } else {
        let n = s1.len() - 1;
        to_multiset_contains(s1, s1[n]);
        to_multiset_contains(s2, s1[n]);
        to_multiset_contains(s1, s2[n]);
        to_multiset_contains(s2, s2[n]);
        assert(s1.contains(s1[n]) && s2.contains(s2[n]));
        let a = choose|a: int| 0 <= a < s2.len() && s2[a] == s1[n];
        let b = choose|b: int| 0 <= b < s1.len() && s1[b] == s2[n];
        if a < n {
            // s1[n] < s2[n] in `s2`, and s2[n] <= s1[n] in `s1`.
            assert(key_lt(s2[a].key, s2[n].key));
            if b < n {
                assert(key_lt(s1[b].key, s1[n].key));
                lemma_key_lt_trichotomy(s1[n].key, s2[n].key);
            } else {
                lemma_key_lt_irreflexive(s1[n].key);
            }
        }
        assert(s2[n] == s1[n]);
        to_multiset_remove(s1, n);
        to_multiset_remove(s2, n);
        assert(s1.remove(n) =~= s1.drop_last());
        assert(s2.remove(n) =~= s2.drop_last());
        lemma_key_order_unique(s1.drop_last(), s1.drop_last(), s2.drop_last());
        assert(s1 =~= s1.drop_last().push(s1[n]));
        assert(s2 =~= s2.drop_last().push(s2[n]));
    }
}

/// An arrangement in key order is the key order.
pub proof fn lemma_key_order_is(all: Seq<Member>, sorted: Seq<Member>)
    requires
        is_key_order(all, sorted),
    ensures
        key_order(all) == sorted,
        is_key_order(all, key_order(all)),
{
    lemma_key_order_unique(all, key_order(all), sorted);
}

/// Arranging members by an order that holds every position once keeps
/// every member, each as often.
pub proof fn lemma_arranged_holds_all(all: Seq<Member>, order: Seq<usize>)
    requires
        all.len() <= usize::MAX,
        order.to_multiset() == positions(0, all.len() as int).to_multiset(),
    ensures
        arranged(all, order).to_multiset() == all.to_multiset(),
{
    let f = |p: usize| all[p as int];
    lemma_map_keeps_items(order, positions(0, all.len() as int), f);
    assert(positions(0, all.len() as int).map_values(f) =~= all);
}

/// The blob of the first `i + 1` members is the blob of the first `i`
/// followed by the payload of member `i`, which so starts at its offset.
pub proof fn lemma_blob_grows(s: Seq<Member>, i: int)
    requires
        0 <= i < s.len(),
    ensures
        blob_of(s.take(i + 1)) == blob_of(s.take(i)) + s[i].data,
        blob_of(s.take(i)).len() == offset_at(payload_lengths(s), i),
    decreases i,
{
    assert(s.take(i + 1).drop_last() =~= s.take(i));
    assert(s.take(i + 1).last() == s[i]);
    if i > 0 {
        lemma_blob_grows(s, i - 1);
    }
}

/// How many members of `s`, a sequence in key order, come before `key`.
pub open spec fn rank(s: Seq<Member>, key: Seq<u8>) -> int
    decreases s.len(),
{
    if s.len() == 0 {
        0
    } else if key_lt(s.last().key, key) {
        s.len() as int
    } else {
        rank(s.drop_last(), key)
    }
}

/// The rank parts a sequence in key order into the members before `key`
/// and the members not before it.
pub proof fn lemma_rank_parts(s: Seq<Member>, key: Seq<u8>)
    requires
        keys_ascend(s),
    ensures
        0 <= rank(s, key) <= s.len(),
        forall|i: int| 0 <= i < rank(s, key) ==> key_lt(#[trigger] s[i].key, key),
        forall|i: int| rank(s, key) <= i < s.len() ==> !key_lt(#[trigger] s[i].key, key),
    decreases s.len(),
{
    if s.len() > 0 {
        let n = s.len() - 1;
        if key_lt(s.last().key, key) {
            assert forall|i: int| 0 <= i < s.len() implies key_lt(#[trigger] s[i].key, key) by {
                if i < n {
                    assert(key_lt(s[i].key, s[n].key));
                    lemma_key_lt_transitive(s[i].key, s[n].key, key);
                }
            }
        } else {
            let front = s.drop_last();
            assert forall|i: int, j: int| 0 <= i < j < front.len() implies key_lt(
                #[trigger] front[i].key,
                #[trigger] front[j].key,
            ) by {
                assert(key_lt(s[i].key, s[j].key));
            }
            lemma_rank_parts(front, key);
            assert forall|i: int| rank(s, key) <= i < s.len() implies !key_lt(
                #[trigger] s[i].key,
                key,
            ) by {
                if i < n {
                    assert(!key_lt(front[i].key, key));
                }
            }
            assert forall|i: int| 0 <= i < rank(s, key) implies key_lt(#[trigger] s[i].key, key) by {
                assert(key_lt(front[i].key, key));
            }
        }
    }
}

/// Members without a key twice can be put into key order.
pub proof fn lemma_key_order_exists(all: Seq<Member>)
    requires
        distinct_keys(all),
    ensures
        is_key_order(all, key_order(all)),
    decreases all.len(),
{
    if all.len() == 0 {
        assert(is_key_order(all, all));
    } else {
        let n = all.len() - 1;
        let rest = all.drop_last();
        let x = all.last();
        assert forall|i: int, j: int| 0 <= i < j < rest.len() implies #[trigger] rest[i].key
            != #[trigger] rest[j].key by {
            assert(all[i].key != all[j].key);
        }
        lemma_key_order_exists(rest);
        let r = key_order(rest);
        let p = rank(r, x.key);
        lemma_rank_parts(r, x.key);
        let s = r.insert(p, x);
        to_multiset_insert(r, p, x);
        to_multiset_build(rest, x);
        assert(all =~= rest.push(x));
        assert forall|i: int| p <= i < r.len() implies key_lt(x.key, #[trigger] r[i].key) by {
            to_multiset_contains(r, r[i]);
            to_multiset_contains(rest, r[i]);
            assert(r.contains(r[i]));
            let a = choose|a: int| 0 <= a < rest.len() && rest[a] == r[i];
            assert(all[a].key != all[n].key);
            lemma_key_lt_trichotomy(x.key, r[i].key);
        }
        assert forall|i: int, j: int| 0 <= i < j < s.len() implies key_lt(
            #[trigger] s[i].key,
            #[trigger] s[j].key,
        ) by {
            if j < p {
                assert(key_lt(r[i].key, r[j].key));
            } else if j == p {
                assert(key_lt(r[i].key, x.key));
            } else if i < p {
                assert(key_lt(r[i].key, r[j - 1].key));
            } else if i == p {
                assert(key_lt(x.key, r[j - 1].key));
            } else {
                assert(key_lt(r[i - 1].key, r[j - 1].key));
            }
        }
        assert(is_key_order(all, s));
    }
}

/// Whether the members have a key twice depends on which members there
/// are, not on their order.
pub proof fn lemma_distinct_keys_ignores_order(a: Seq<Member>, b: Seq<Member>)
    requires
        a.to_multiset() == b.to_multiset(),
    ensures
        distinct_keys(a) == distinct_keys(b),
{
    if !distinct_keys(a) {
        let (i, j) = choose|i: int, j: int|
            0 <= i < j < a.len() && #[trigger] a[i].key == #[trigger] a[j].key;
        lemma_repeated_key(b, a, i, j);
    }
    if !distinct_keys(b) {
        let (i, j) = choose|i: int, j: int|
            0 <= i < j < b.len() && #[trigger] b[i].key == #[trigger] b[j].key;
        lemma_repeated_key(a, b, i, j);
    }
}

/// The archive that is assembled depends on which payloads there are, not
/// on the order in which they are given.
pub proof fn lemma_assembled_ignores_order(a: Seq<Member>, b: Seq<Member>)
    requires
        a.to_multiset() == b.to_multiset(),
    ensures
        assembled(a) == assembled(b),
{
    to_multiset_len(a);
    to_multiset_len(b);
    lemma_distinct_keys_ignores_order(a, b);
    if a.len() > 0 && distinct_keys(a) {
        lemma_key_order_exists(a);
        lemma_key_order_exists(b);
        lemma_key_order_unique(a, key_order(a), key_order(b));
    }
}

/// Compressing two lists of files one after the other is compressing the
/// one list after the other.
pub proof fn lemma_compressed_joins(front: Seq<Member>, back: Seq<Member>)
    ensures
        compressed(front + back) == compressed(front) + compressed(back),
    decreases back.len(),
{
    if back.len() == 0 {
        assert(front + back =~= front);
        assert(compressed(front) + compressed(back) =~= compressed(front));
    } else {
        let all = front + back;
        assert(all.drop_last() =~= front + back.drop_last());
        assert(all.last() == back.last());
        lemma_compressed_joins(front, back.drop_last());
        match gz_encoded(back.last().data) {
            Some(stream) => {
                let m = Member { key: back.last().key, data: stream };
                assert((compressed(front) + compressed(back.drop_last())).push(m) =~= compressed(
                    front,
                ) + compressed(back.drop_last()).push(m));
            },
            None => {},
        }
    }
}

/// Which payloads there are depends on which files there are, not on their
/// order.
pub proof fn lemma_compressed_ignores_order(a: Seq<Member>, b: Seq<Member>)
    requires
        a.to_multiset() == b.to_multiset(),
    ensures
        compressed(a).to_multiset() == compressed(b).to_multiset(),
    decreases a.len(),
{
    to_multiset_len(a);
    to_multiset_len(b);
    if a.len() == 0 {
        assert(a =~= b);
    } else {
        let n = a.len() - 1;
        let x = a.last();
        to_multiset_contains(a, x);
        to_multiset_contains(b, x);
        assert(a[n] == x);
        assert(a.contains(x));
        let k = choose|k: int| 0 <= k < b.len() && b[k] == x;
        let a1 = a.drop_last();
        let b1 = b.remove(k);
        assert(a.remove(n) =~= a1);
        to_multiset_remove(a, n);
        to_multiset_remove(b, k);
        lemma_compressed_ignores_order(a1, b1);
        // `b` is `b1` with `x` put back at `k`.
        let front = b.take(k);
        let back = b.skip(k + 1);
        assert(b1 =~= front + back);
        assert(b =~= (front + seq![x]) + back);
        lemma_compressed_joins(front, back);
        lemma_compressed_joins(front, seq![x]);
        lemma_compressed_joins(front + seq![x], back);
        lemma_multiset_commutative(compressed(front), compressed(back));
        lemma_multiset_commutative(compressed(front), compressed(seq![x]));
        lemma_multiset_commutative(compressed(front) + compressed(seq![x]), compressed(back));
        assert(a =~= a1 + seq![x]);
        lemma_compressed_joins(a1, seq![x]);
        lemma_multiset_commutative(compressed(a1), compressed(seq![x]));
        assert(compressed(b).to_multiset() =~= compressed(a).to_multiset());
    }
}

/// The archive that is built depends on which files there are, not on the
/// order in which they are given: building the same tree again, however it
/// is walked, gives the same index and the same blob.
pub proof fn lemma_built_ignores_order(a: Seq<Member>, b: Seq<Member>)
    requires
        a.to_multiset() == b.to_multiset(),
    ensures
        built(a) == built(b),
{
    lemma_compressed_ignores_order(a, b);
    lemma_assembled_ignores_order(compressed(a), compressed(b));
}

/// Without a file there is no archive.
pub proof fn lemma_nothing_builds_nothing()
    ensures
        built(Seq::<Member>::empty()) == Err::<ArchiveView, BuildError>(BuildError::EmptyArchive),
{
}

} // verus!
