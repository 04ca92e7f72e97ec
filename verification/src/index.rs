//! The ordered index: a sorted map from keys to packed ranges, written once
//! in ascending key order and read by exact lookup.
//!
//! The map itself is the `fst` crate's. What this module assumes of that
//! crate stands in the first part of the file; the builder that follows is
//! verified against it.

use crate::key::{key_less, key_lt, lemma_key_lt_transitive, lemma_key_lt_trichotomy};
use vstd::bytes::spec_u64_from_le_bytes;
use vstd::pervasive::unreached;
use vstd::prelude::*;
use vstd::slice::slice_to_vec;

verus! {

#[verifier::external_type_specification]
#[verifier::external_body]
#[verifier::reject_recursive_types(W)]
pub struct ExMapBuilder<W>(fst::MapBuilder<W>);

#[verifier::external_type_specification]
#[verifier::external_body]
pub struct ExMap(fst::Map);

#[verifier::external_type_specification]
#[verifier::external_body]
pub struct ExFstError(fst::Error);

/// The entries that an in-memory `fst::MapBuilder` has taken so far, in the
/// order in which they were inserted.
pub uninterp spec fn builder_entries(builder: fst::MapBuilder<Vec<u8>>) -> Seq<(Seq<u8>, u64)>;

/// The bytes that `fst::MapBuilder::into_inner` hands out for a builder that
/// has taken `entries`. Within one build of the program they depend on the
/// entries alone; the crate reduces a hash through `usize`, so a very large
/// index may come out differently on a target of another pointer width.
pub uninterp spec fn encoded_index(entries: Seq<(Seq<u8>, u64)>) -> Seq<u8>;

/// The bytes that an `fst::Map` was made from.
pub uninterp spec fn map_image(map: fst::Map) -> Seq<u8>;

/// The keys and values that `fst::Map::from_bytes` reads out of `bytes`, or
/// `None` where it refuses them.
pub uninterp spec fn decoded_index(bytes: Seq<u8>) -> Option<Map<Seq<u8>, u64>>;

/// Whether `key` may follow `entries` in a builder: it comes strictly after
/// the key inserted last.
pub open spec fn may_follow(entries: Seq<(Seq<u8>, u64)>, key: Seq<u8>) -> bool {
    entries.len() > 0 ==> key_lt(entries.last().0, key)
}

/// Whether the keys of `entries` ascend strictly.
pub open spec fn ascending(entries: Seq<(Seq<u8>, u64)>) -> bool {
    forall|i: int, j: int|
        0 <= i < j < entries.len() ==> key_lt(#[trigger] entries[i].0, #[trigger] entries[j].0)
}

/// Whether `entries` has an entry for `key`.
pub open spec fn has_entry(entries: Seq<(Seq<u8>, u64)>, key: Seq<u8>) -> bool {
    exists|i: int| 0 <= i < entries.len() && #[trigger] entries[i].0 == key
}

/// A position at which `entries` has an entry for `key`. Among ascending
/// entries there is at most one.
pub open spec fn entry_position(entries: Seq<(Seq<u8>, u64)>, key: Seq<u8>) -> int {
    choose|i: int| 0 <= i < entries.len() && #[trigger] entries[i].0 == key
}

/// The entries as a map from key to value.
pub open spec fn entry_map(entries: Seq<(Seq<u8>, u64)>) -> Map<Seq<u8>, u64> {
    Map::new(
        |key: Seq<u8>| has_entry(entries, key),
        |key: Seq<u8>| entries[entry_position(entries, key)].1,
    )
}

/// Whether the two sizes that the last 16 bytes of an index record, each a
/// 64-bit number with the low byte first, fit the address space.
pub open spec fn trailer_fits(bytes: Seq<u8>) -> bool {
    bytes.len() >= 32 ==> {
        &&& spec_u64_from_le_bytes(bytes.subrange(bytes.len() - 16, bytes.len() - 8))
            <= usize::MAX
        &&& spec_u64_from_le_bytes(bytes.subrange(bytes.len() - 8, bytes.len() as int))
            <= usize::MAX
    }
}

/// Whether `bytes` is the finished index of `entries`: what a builder wrote
/// for them, and what is read back as them.
pub open spec fn is_index_of(bytes: Seq<u8>, entries: Seq<(Seq<u8>, u64)>) -> bool {
    &&& ascending(entries)
    &&& encoded_index(entries) == bytes
    &&& trailer_fits(bytes)
    &&& decoded_index(bytes) == Some(entry_map(entries))
}

/// Whether `bytes` is what a builder wrote for some ascending entries.
pub open spec fn is_index_image(bytes: Seq<u8>) -> bool {
    exists|entries: Seq<(Seq<u8>, u64)>|
        ascending(entries) && #[trigger] encoded_index(entries) == bytes
}

/// A finished index is what a builder wrote, and it can be opened and
/// read.
pub proof fn lemma_finished_index_reads(bytes: Seq<u8>, entries: Seq<(Seq<u8>, u64)>)
    requires
        is_index_of(bytes, entries),
    ensures
        is_index_image(bytes),
        trailer_fits(bytes),
        decoded_index(bytes) is Some,
{
}

/// `fst::MapBuilder::memory`: a builder that writes to a vector of its own.
/// It has taken no entry yet.
#[verifier::external_body]
pub(crate) fn builder_memory() -> (builder: fst::MapBuilder<Vec<u8>>)
    ensures
        builder_entries(builder) == Seq::<(Seq<u8>, u64)>::empty(),
{
    fst::MapBuilder::memory()
}

/// `fst::MapBuilder::insert` on an in-memory builder. The crate refuses a
/// key that does not come strictly after the one inserted last, and leaves
/// the builder as it was; every other key it takes. Its only other error is
/// a failed write, and writing to a vector does not fail.
#[verifier::external_body]
pub(crate) fn builder_insert(
    builder: &mut fst::MapBuilder<Vec<u8>>,
    key: &[u8],
    value: u64,
) -> (res: Result<(), fst::Error>)
    ensures
        res is Ok <==> may_follow(builder_entries(*old(builder)), key@),
        res is Ok ==> builder_entries(*final(builder)) == builder_entries(*old(builder)).push(
            (key@, value),
        ),
        res is Err ==> builder_entries(*final(builder)) == builder_entries(*old(builder)),
{
    builder.insert(key, value)
}

/// `fst::MapBuilder::into_inner` on an in-memory builder: the finished
/// index as bytes. Its only errors are failed writes, and writing to a
/// vector does not fail. The bytes depend on the entries alone. They end
/// with the number of entries and the address of the root, which both fit
/// the address space, and `fst::Map::from_bytes` reads the same entries
/// back out of them.
#[verifier::external_body]
pub(crate) fn builder_into_inner(builder: fst::MapBuilder<Vec<u8>>) -> (res: Result<
    Vec<u8>,
    fst::Error,
>)
    ensures
        res is Ok,
        res matches Ok(bytes) ==> encoded_index(builder_entries(builder)) == bytes@,
        res matches Ok(bytes) ==> trailer_fits(bytes@),
        res matches Ok(bytes) ==> (ascending(builder_entries(builder)) ==> decoded_index(bytes@)
            == Some(entry_map(builder_entries(builder)))),
{
    builder.into_inner()
}

/// `fst::Map::from_bytes`: checks the header and the trailer of `bytes` and
/// keeps them. Fewer than 32 bytes cannot hold both and are refused. It
/// reads no further, so it also accepts bytes that no builder wrote. Where
/// a size in the trailer does not fit the address space the crate panics,
/// so such bytes are left out.
#[verifier::external_body]
pub(crate) fn map_from_bytes(bytes: Vec<u8>) -> (res: Result<fst::Map, fst::Error>)
    requires
        trailer_fits(bytes@),
    ensures
        match res {
            Ok(map) => decoded_index(bytes@) is Some && map_image(map) == bytes@,
            Err(_) => decoded_index(bytes@) is None,
        },
        bytes@.len() < 32 ==> res is Err,
{
    fst::Map::from_bytes(bytes)
}

/// `fst::Map::get`: the value stored under `key`, if any. On bytes that no
/// builder wrote the crate may panic, so those are left out.
#[verifier::external_body]
pub(crate) fn map_get(map: &fst::Map, key: &[u8]) -> (value: Option<u64>)
    requires
        is_index_image(map_image(*map)),
    ensures
        value == map_lookup(decoded_index(map_image(*map)), key@),
{
    map.get(key)
}

/// The value under `key` in what was read out of an index.
pub open spec fn map_lookup(entries: Option<Map<Seq<u8>, u64>>, key: Seq<u8>) -> Option<u64> {
    match entries {
        Some(m) => if m.contains_key(key) {
            Some(m[key])
        } else {
            None
        },
        None => None,
    }
}

/// Why the index refused an entry.
#[derive(Clone, Copy, Debug, PartialEq, Eq, Structural)]
pub enum IndexError {
    /// The key comes before the key inserted last.
    OutOfOrder,
    /// The key is the key inserted last.
    DuplicateKey,
}

/// An index under construction. It takes entries in strictly ascending key
/// order and turns them into the bytes of the finished index.
pub struct IndexBuilder {
    inner: fst::MapBuilder<Vec<u8>>,
    last: Option<Vec<u8>>,
}

impl IndexBuilder {
    /// The entries taken so far, in the order of insertion.
    pub closed spec fn entries(&self) -> Seq<(Seq<u8>, u64)> {
        builder_entries(self.inner)
    }

    /// The builder's invariant: the keys taken so far ascend strictly, and
    /// the builder remembers the last of them.
    pub closed spec fn wf(&self) -> bool {
        &&& ascending(self.entries())
        &&& match self.last {
            None => self.entries().len() == 0,
            Some(key) => self.entries().len() > 0 && key@ == self.entries().last().0,
        }
    }

    /// The keys of a well-formed builder ascend strictly.
    pub proof fn lemma_entries_ascend(&self)
        requires
            self.wf(),
        ensures
            ascending(self.entries()),
    {
    }

    /// An index without entries.
    pub fn new() -> (builder: IndexBuilder)
        ensures
            builder.wf(),
            builder.entries() == Seq::<(Seq<u8>, u64)>::empty(),
    {
        IndexBuilder { inner: builder_memory(), last: None }
    }

    /// Appends an entry. A key that does not come strictly after the key
    /// inserted last is refused, and the index stays as it was: nothing is
    /// ever put in front of an entry that is already there.
    pub fn insert(&mut self, key: &[u8], value: u64) -> (res: Result<(), IndexError>)
        requires
            old(self).wf(),
        ensures
            final(self).wf(),
            res is Ok <==> may_follow(old(self).entries(), key@),
            res is Ok ==> final(self).entries() == old(self).entries().push((key@, value)),
            res is Err ==> final(self).entries() == old(self).entries(),
            res == Err::<(), IndexError>(IndexError::OutOfOrder) <==> old(self).entries().len() > 0
                && key_lt(key@, old(self).entries().last().0),
            res == Err::<(), IndexError>(IndexError::DuplicateKey) <==> old(self).entries().len()
                > 0 && key@ == old(self).entries().last().0,
    {
        match &self.last {
            None => {},
            Some(last) => {
                proof {
                    lemma_key_lt_trichotomy(last@, key@);
                }
                if !key_less(last.as_slice(), key) {
                    if key_less(key, last.as_slice()) {
                        return Err(IndexError::OutOfOrder);
                    } else {
                        return Err(IndexError::DuplicateKey);
                    }
                }
            },
        }
        match builder_insert(&mut self.inner, key, value) {
            Ok(()) => {
                proof {
                    let before = old(self).entries();
                    let after = before.push((key@, value));
                    assert forall|i: int, j: int| 0 <= i < j < after.len() implies key_lt(
                        #[trigger] after[i].0,
                        #[trigger] after[j].0,
                    ) by {
                        if j == before.len() && i < before.len() - 1 {
                            lemma_key_lt_transitive(before[i].0, before.last().0, key@);
                        }
                    }
                }
                self.last = Some(slice_to_vec(key));
                Ok(())
            },
            // The crate refuses nothing but what was refused above.
            Err(_) => unreached(),
        }
    }

    /// Seals the index and hands out its bytes. An index that is held in
    /// memory is always finished: there is no write that could fail.
    /// `Site::new` reads the same entries back out of the bytes.
    pub fn finish(self) -> (res: Result<Vec<u8>, IndexError>)
        requires
            self.wf(),
        ensures
            res matches Ok(bytes) && is_index_of(bytes@, self.entries()),
    {
        match builder_into_inner(self.inner) {
            Ok(bytes) => Ok(bytes),
            Err(_) => unreached(),
        }
    }
}

} // verus!
