//! Sorting payloads by key: a merge sort that leaves the payloads where
//! they are and orders their positions.

use crate::archive::Payload;
use crate::key::{key_less, key_lt, lemma_key_lt_transitive, lemma_key_lt_trichotomy};
use vstd::multiset::Multiset;
use vstd::prelude::*;
use vstd::seq_lib::{
    lemma_multiset_commutative, to_multiset_build, to_multiset_contains, to_multiset_insert,
    to_multiset_len, to_multiset_remove,
};

verus! {

/// The positions `lo`, `lo + 1`, up to but without `hi`.
pub open spec fn positions(lo: int, hi: int) -> Seq<usize> {
    Seq::new((hi - lo) as nat, |i: int| (lo + i) as usize)
}

/// The keys of the payloads, each at its payload's position.
pub open spec fn payload_keys(payloads: Seq<Payload>) -> Seq<Seq<u8>> {
    Seq::new(payloads.len(), |i: int| payloads[i].key@)
}

/// Whether every position of `order` lies below `n`.
pub open spec fn all_below(order: Seq<usize>, n: int) -> bool {
    forall|i: int| 0 <= i < order.len() ==> #[trigger] order[i] < n
}

/// Whether the keys, taken in the given order, never descend.
pub open spec fn keys_never_descend(keys: Seq<Seq<u8>>, order: Seq<usize>) -> bool {
    forall|i: int, j: int|
        0 <= i < j < order.len() ==> !key_lt(
            keys[#[trigger] order[j] as int],
            keys[#[trigger] order[i] as int],
        )
}

/// Mapping two sequences that hold the same items gives two sequences that
/// hold the same items.
pub proof fn lemma_map_keeps_items<A, B>(a: Seq<A>, b: Seq<A>, f: spec_fn(A) -> B)
    requires
        a.to_multiset() == b.to_multiset(),
    ensures
        a.map_values(f).to_multiset() == b.map_values(f).to_multiset(),
    decreases a.len(),
{
    to_multiset_len(a);
    to_multiset_len(b);
    if a.len() == 0 {
        assert(a.map_values(f) =~= b.map_values(f));
    } else {
        let x = a.last();
        let last = a.len() - 1;
        to_multiset_contains(a, x);
        to_multiset_contains(b, x);
        assert(a[last] == x);
        assert(a.contains(x));
        let k = choose|k: int| 0 <= k < b.len() && b[k] == x;
        let a1 = a.remove(last);
        let b1 = b.remove(k);
        to_multiset_remove(a, last);
        to_multiset_remove(b, k);
        lemma_map_keeps_items(a1, b1, f);
        assert(a.map_values(f) =~= a1.map_values(f).insert(last, f(x)));
        assert(b.map_values(f) =~= b1.map_values(f).insert(k, f(x)));
        to_multiset_insert(a1.map_values(f), last, f(x));
        to_multiset_insert(b1.map_values(f), k, f(x));
    }
}

/// A sequence without items holds nothing.
pub proof fn lemma_nothing_holds_nothing<A>(s: Seq<A>)
    requires
        s.len() == 0,
    ensures
        s.to_multiset() == Multiset::<A>::empty(),
{
    to_multiset_len(s);
    vstd::multiset::lemma_multiset_empty_len(s.to_multiset());
    assert(s.to_multiset() =~= Multiset::<A>::empty());
}

/// Merges two runs of positions whose keys never descend into one.
fn merge_runs(payloads: &Vec<Payload>, left: &Vec<usize>, right: &Vec<usize>) -> (out: Vec<usize>)
    requires
        all_below(left@, payloads.len() as int),
        all_below(right@, payloads.len() as int),
        keys_never_descend(payload_keys(payloads@), left@),
        keys_never_descend(payload_keys(payloads@), right@),
    ensures
        out@.to_multiset() == left@.to_multiset().add(right@.to_multiset()),
        all_below(out@, payloads.len() as int),
        keys_never_descend(payload_keys(payloads@), out@),
{
    let ghost k = payload_keys(payloads@);
    let mut out: Vec<usize> = Vec::new();
    let mut i: usize = 0;
    let mut j: usize = 0;
    proof {
        lemma_nothing_holds_nothing(out@);
        lemma_nothing_holds_nothing(left@.take(0));
        lemma_nothing_holds_nothing(right@.take(0));
    }
    while i < left.len() || j < right.len()
        invariant
            i <= left.len(),
            j <= right.len(),
            k == payload_keys(payloads@),
            all_below(left@, payloads.len() as int),
            all_below(right@, payloads.len() as int),
            keys_never_descend(k, left@),
            keys_never_descend(k, right@),
            out@.to_multiset() == left@.take(i as int).to_multiset().add(
                right@.take(j as int).to_multiset(),
            ),
            all_below(out@, payloads.len() as int),
            keys_never_descend(k, out@),
            forall|a: int, b: int|
                0 <= a < out.len() && i <= b < left.len() ==> !key_lt(
                    k[#[trigger] left[b] as int],
                    k[#[trigger] out[a] as int],
                ),
            forall|a: int, b: int|
                0 <= a < out.len() && j <= b < right.len() ==> !key_lt(
                    k[#[trigger] right[b] as int],
                    k[#[trigger] out[a] as int],
                ),
        decreases left.len() - i + right.len() - j,
    {
        let ghost before = out@;
        let take_left = if i == left.len() {
            false
        } else if j == right.len() {
            true
        } else {
            assert(left[i as int] < payloads.len() && right[j as int] < payloads.len());
            !key_less(payloads[right[j]].key.as_slice(), payloads[left[i]].key.as_slice())
        };
        if take_left {
            let x = left[i];
            out.push(x);
            proof {
                to_multiset_build(before, x);
                to_multiset_build(left@.take(i as int), x);
                assert(left@.take(i + 1) =~= left@.take(i as int).push(x));
                assert forall|a: int, b: int|
                    0 <= a < out.len() && j <= b < right.len() implies !key_lt(
                    k[#[trigger] right[b] as int],
                    k[#[trigger] out[a] as int],
                ) by {
                    if a == before.len() && b > j {
                        lemma_never_before(k[x as int], k[right[j as int] as int], k[right[b] as int]);
                    }
                }
            }
            i += 1;
        } else {
            let x = right[j];
            out.push(x);
            proof {
                to_multiset_build(before, x);
                to_multiset_build(right@.take(j as int), x);
                assert(right@.take(j + 1) =~= right@.take(j as int).push(x));
                assert forall|a: int, b: int|
                    0 <= a < out.len() && i <= b < left.len() implies !key_lt(
                    k[#[trigger] left[b] as int],
                    k[#[trigger] out[a] as int],
                ) by {
                    if a == before.len() {
                        lemma_key_lt_trichotomy(k[x as int], k[left[i as int] as int]);
                        if b > i {
                            lemma_never_before(
                                k[x as int],
                                k[left[i as int] as int],
                                k[left[b] as int],
                            );
                        }
                    }
                }
            }
            j += 1;
        }
    }
    assert(left@.take(left.len() as int) =~= left@);
    assert(right@.take(right.len() as int) =~= right@);
    out
}

/// If `a` does not come after `b`, nor `b` after `c`, then `a` does not
/// come after `c`.
pub proof fn lemma_never_before(a: Seq<u8>, b: Seq<u8>, c: Seq<u8>)
    requires
        !key_lt(b, a),
        !key_lt(c, b),
    ensures
        !key_lt(c, a),
{
    lemma_key_lt_trichotomy(a, b);
    lemma_key_lt_trichotomy(b, c);
    if key_lt(c, a) {
        if a == b {
        } else if b == c {
        } else {
            lemma_key_lt_transitive(c, a, b);
        }
    }
}

/// The positions from `lo` up to `hi` in an order in which their keys
/// never descend.
fn sort_positions(payloads: &Vec<Payload>, lo: usize, hi: usize) -> (out: Vec<usize>)
    requires
        lo <= hi <= payloads.len(),
    ensures
        out@.to_multiset() == positions(lo as int, hi as int).to_multiset(),
        all_below(out@, payloads.len() as int),
        keys_never_descend(payload_keys(payloads@), out@),
    decreases hi - lo,
{
    if hi - lo <= 1 {
        let mut out: Vec<usize> = Vec::new();
        if hi > lo {
            out.push(lo);
        }
        assert(out@ =~= positions(lo as int, hi as int));
        return out;
    }
    let mid = lo + (hi - lo) / 2;
    let left = sort_positions(payloads, lo, mid);
    let right = sort_positions(payloads, mid, hi);
    proof {
        lemma_multiset_commutative(positions(lo as int, mid as int), positions(mid as int, hi as int));
        assert(positions(lo as int, hi as int) =~= positions(lo as int, mid as int) + positions(
            mid as int,
            hi as int,
        ));
    }
    merge_runs(payloads, &left, &right)
}

/// An order of all positions of `payloads` in which the keys never descend.
pub fn sorted_positions(payloads: &Vec<Payload>) -> (order: Vec<usize>)
    ensures
        order@.to_multiset() == positions(0, payloads.len() as int).to_multiset(),
        order.len() == payloads.len(),
        all_below(order@, payloads.len() as int),
        keys_never_descend(payload_keys(payloads@), order@),
{
    let order = sort_positions(payloads, 0, payloads.len());
    proof {
        to_multiset_len(order@);
        to_multiset_len(positions(0, payloads.len() as int));
    }
    order
}

} // verus!
