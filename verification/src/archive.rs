//! The archive builder: compresses the files of a tree, puts them into key
//! order, lays the payloads out one after the other in a blob, and records
//! where each one lies in an ordered index.

use crate::compress::compress;
use crate::index::{
    decoded_index, is_index_image, is_index_of, trailer_fits, IndexBuilder, IndexError,
};
use crate::key::{key_less, key_lt, lemma_key_lt_transitive, lemma_key_lt_trichotomy};
use crate::layout::{
    arranged, assembled, blob_of, built, compressed, distinct_keys, index_entries, is_key_order,
    key_order, keys_ascend, lemma_arranged_holds_all, lemma_blob_grows, lemma_key_order_distinct,
    lemma_key_order_is, lemma_repeated_key, offset_at, packed_ranges, payload_lengths,
    ranges_fit, skipped, ArchiveView, Member,
};
use crate::order::{all_below, keys_never_descend, payload_keys, sorted_positions};
use crate::server::{guessed_mime, request_path, response_for, serve, Response};
use crate::site::{resolved, Site};
use crate::slice::{fits_field, pack_in_u64};
use vstd::pervasive::unreached;
use vstd::prelude::*;
use vstd::slice::slice_to_vec;
use vstd::utf8::encode_utf8;

verus! {

/// A file as it was read from the source tree: its path relative to the
/// root of the tree, as raw bytes, and its content.
#[derive(Debug)]
pub struct SourceFile {
    pub key: Vec<u8>,
    pub content: Vec<u8>,
}

impl View for SourceFile {
    type V = Member;

    open spec fn view(&self) -> Member {
        Member { key: self.key@, data: self.content@ }
    }
}

/// A file ready to be stored: its key and its compressed content.
#[derive(Debug)]
pub struct Payload {
    pub key: Vec<u8>,
    pub data: Vec<u8>,
}

impl View for Payload {
    type V = Member;

    open spec fn view(&self) -> Member {
        Member { key: self.key@, data: self.data@ }
    }
}

/// A finished archive: the bytes of the index and the bytes of the blob.
/// Only `assemble` and `build` make one, so its index is always one that
/// the builder wrote.
#[derive(Debug)]
pub struct Archive {
    index: Vec<u8>,
    blob: Vec<u8>,
}

impl View for Archive {
    type V = ArchiveView;

    closed spec fn view(&self) -> ArchiveView {
        ArchiveView { index: self.index@, blob: self.blob@ }
    }
}

impl Archive {
    /// What holds of every archive: its index is what a builder wrote, and
    /// it can be opened and read.
    #[verifier::type_invariant]
    spec fn index_is_finished(self) -> bool {
        &&& is_index_image(self.index@)
        &&& trailer_fits(self.index@)
        &&& decoded_index(self.index@) is Some
    }

    /// The bytes of the index, as they are written to the index file.
    pub fn index(&self) -> (bytes: &[u8])
        ensures
            bytes@ == self@.index,
    {
        self.index.as_slice()
    }

    /// The bytes of the blob, as they are written to the archive file.
    pub fn blob(&self) -> (bytes: &[u8])
        ensures
            bytes@ == self@.blob,
    {
        self.blob.as_slice()
    }

    /// Opens the archive as a site, without a detour through files. The
    /// site borrows the blob and reads a copy of the index.
    pub fn site(&self) -> (site: Site<'_>)
        ensures
            site.wf(),
            site.image() == self@.index,
            site.blob() == self@.blob,
    {
        proof {
            use_type_invariant(self);
        }
        match Site::new(slice_to_vec(self.index.as_slice()), self.blob.as_slice()) {
            Ok(site) => site,
            // A finished index is never refused.
            Err(_) => unreached(),
        }
    }

    /// Answers one request from the archive as it is held in memory. The
    /// index is opened anew for each answer: to answer many requests, keep
    /// the site that `site` opens.
    pub fn serve(&self, uri_path: &str) -> (response: Response<'_>)
        ensures
            response@ == response_for(
                resolved(
                    decoded_index(self@.index).unwrap(),
                    self@.blob,
                    encode_utf8(request_path(uri_path@)),
                ),
                guessed_mime(request_path(uri_path@)),
            ),
    {
        let site = self.site();
        serve(&site, uri_path)
    }
}

/// Why no archive was built.
#[derive(Clone, Copy, Debug, PartialEq, Eq, Structural)]
pub enum BuildError {
    /// There is no file to store.
    EmptyArchive,
    /// A payload's offset or length does not fit the 32 bits that a packed
    /// range has for it.
    RangeOverflow,
    /// The index refused an entry or could not be finished.
    Index(IndexError),
}

/// What the contracts see of a list of payloads.
pub open spec fn members(payloads: Seq<Payload>) -> Seq<Member> {
    payloads.map_values(|p: Payload| p@)
}

/// The given lengths as integers.
pub open spec fn as_ints(lengths: Seq<usize>) -> Seq<int> {
    lengths.map_values(|l: usize| l as int)
}

/// Lays payloads of the given lengths out one after the other and packs
/// the range of each. A payload whose offset or length needs more than 32
/// bits is not packed: the layout is refused.
pub fn pack_ranges(lengths: &Vec<usize>) -> (res: Result<Vec<u64>, BuildError>)
    ensures
        match res {
            Ok(ranges) => ranges_fit(as_ints(lengths@)) && ranges@ == packed_ranges(
                as_ints(lengths@),
            ),
            Err(e) => e == BuildError::RangeOverflow && !ranges_fit(as_ints(lengths@)),
        },
{
    let ghost l = as_ints(lengths@);
    let mut ranges: Vec<u64> = Vec::new();
    let mut offset: u64 = 0;
    let mut i: usize = 0;
    while i < lengths.len()
        invariant
            i <= lengths.len(),
            l == as_ints(lengths@),
            offset == offset_at(l, i as int),
            offset <= 0x1_FFFF_FFFE,
            ranges@ == packed_ranges(l).take(i as int),
            forall|a: int| 0 <= a < i ==> fits_field(#[trigger] offset_at(l, a)) && fits_field(l[a]),
        decreases lengths.len() - i,
    {
        let length = lengths[i];
        assert(l[i as int] == length);
        if offset > 0xFFFF_FFFF || length > 0xFFFF_FFFF {
            assert(!(fits_field(offset_at(l, i as int)) && fits_field(l[i as int])));
            return Err(BuildError::RangeOverflow);
        }
        ranges.push(pack_in_u64(offset as usize, length));
        proof {
            assert(packed_ranges(l).take(i + 1) =~= packed_ranges(l).take(i as int).push(
                packed_ranges(l)[i as int],
            ));
            assert forall|a: int| 0 <= a < i + 1 implies fits_field(#[trigger] offset_at(l, a))
                && fits_field(l[a]) by {
                if a == i {
                    assert(offset_at(l, a) == offset);
                }
            }
        }
        offset = offset + length as u64;
        i += 1;
    }
    assert(packed_ranges(l).take(lengths.len() as int) =~= packed_ranges(l));
    Ok(ranges)
}

/// The positions of the payloads in key order. Two payloads with the same
/// key cannot be ordered, and are refused.
pub fn key_ordered(payloads: &Vec<Payload>) -> (res: Result<Vec<usize>, BuildError>)
    ensures
        match res {
            Ok(order) => {
                &&& distinct_keys(members(payloads@))
                &&& order.len() == payloads.len()
                &&& all_below(order@, payloads.len() as int)
                &&& is_key_order(members(payloads@), arranged(members(payloads@), order@))
                &&& arranged(members(payloads@), order@) == key_order(members(payloads@))
            },
            Err(e) => e == BuildError::Index(IndexError::DuplicateKey) && !distinct_keys(
                members(payloads@),
            ),
        },
{
    let n = payloads.len();
    let order = sorted_positions(payloads);
    let ghost all = members(payloads@);
    let ghost s = arranged(all, order@);
    proof {
        lemma_arranged_holds_all(all, order@);
        if n == 0 {
            lemma_key_order_is(all, s);
            lemma_key_order_distinct(all, s);
        }
    }
    if n == 0 {
        return Ok(order);
    }
    let mut i: usize = 1;
    while i < n
        invariant
            1 <= i <= n,
            n == payloads.len(),
            order.len() == n,
            all == members(payloads@),
            s == arranged(all, order@),
            s.to_multiset() == all.to_multiset(),
            all_below(order@, n as int),
            keys_never_descend(payload_keys(payloads@), order@),
            keys_ascend(s.take(i as int)),
        decreases n - i,
    {
        let before = order[i - 1];
        let here = order[i];
        assert(s[i - 1].key == payloads[before as int].key@);
        assert(s[i as int].key == payloads[here as int].key@);
        if !key_less(payloads[before].key.as_slice(), payloads[here].key.as_slice()) {
            proof {
                assert(!key_lt(
                    payload_keys(payloads@)[order@[i as int] as int],
                    payload_keys(payloads@)[order@[i - 1] as int],
                ));
                lemma_key_lt_trichotomy(s[i - 1].key, s[i as int].key);
                lemma_repeated_key(all, s, i - 1, i as int);
            }
            return Err(BuildError::Index(IndexError::DuplicateKey));
        }
        proof {
            let now = s.take(i as int);
            let next = s.take(i + 1);
            assert forall|a: int, b: int| 0 <= a < b < next.len() implies key_lt(
                #[trigger] next[a].key,
                #[trigger] next[b].key,
            ) by {
                if b < i {
                    assert(key_lt(now[a].key, now[b].key));
                } else if a < i - 1 {
                    assert(key_lt(now[a].key, now[i - 1].key));
                    lemma_key_lt_transitive(s[a].key, s[i - 1].key, s[i as int].key);
                }
            }
        }
        i += 1;
    }
    proof {
        assert(s.take(n as int) =~= s);
        lemma_key_order_is(all, s);
        lemma_key_order_distinct(all, s);
    }
    Ok(order)
}

/// Assembles an archive from compressed files: puts them into key order,
/// appends each payload to the blob, and records each key with the packed
/// range of its payload in the index.
pub fn assemble(payloads: &Vec<Payload>) -> (res: Result<Archive, BuildError>)
    ensures
        match res {
            Ok(archive) => assembled(members(payloads@)) == Ok::<ArchiveView, BuildError>(
                archive@,
            ) && is_index_of(archive@.index, index_entries(key_order(members(payloads@)))),
            Err(e) => assembled(members(payloads@)) == Err::<ArchiveView, BuildError>(e),
        },
{
    let n = payloads.len();
    if n == 0 {
        return Err(BuildError::EmptyArchive);
    }
    let order = match key_ordered(payloads) {
        Ok(order) => order,
        Err(e) => {
            return Err(e);
        },
    };
    let ghost s = key_order(members(payloads@));

    let mut lengths: Vec<usize> = Vec::new();
    let mut i: usize = 0;
    while i < n
        invariant
            i <= n,
            n == payloads.len(),
            order.len() == n,
            all_below(order@, n as int),
            s == arranged(members(payloads@), order@),
            as_ints(lengths@) == payload_lengths(s).take(i as int),
        decreases n - i,
    {
        let ghost shorter = lengths@;
        lengths.push(payloads[order[i]].data.len());
        assert(as_ints(lengths@) =~= as_ints(shorter).push(payload_lengths(s)[i as int]));
        i += 1;
    }
    assert(payload_lengths(s).take(n as int) =~= payload_lengths(s));
    let ranges = match pack_ranges(&lengths) {
        Ok(ranges) => ranges,
        Err(e) => {
            return Err(e);
        },
    };

    let mut builder = IndexBuilder::new();
    let mut blob: Vec<u8> = Vec::new();
    let mut i: usize = 0;
    while i < n
        invariant
            i <= n,
            n == payloads.len(),
            order.len() == n,
            all_below(order@, n as int),
            s == arranged(members(payloads@), order@),
            keys_ascend(s),
            ranges@ == packed_ranges(payload_lengths(s)),
            builder.wf(),
            builder.entries() == index_entries(s).take(i as int),
            blob@ == blob_of(s.take(i as int)),
        decreases n - i,
    {
        let payload = &payloads[order[i]];
        proof {
            assert(s[i as int] == payload@);
            if i > 0 {
                assert(builder.entries().last() == index_entries(s)[i - 1]);
                assert(key_lt(s[i - 1].key, s[i as int].key));
            }
            lemma_blob_grows(s, i as int);
        }
        match builder.insert(payload.key.as_slice(), ranges[i]) {
            Ok(()) => {},
            // Keys in key order are never refused.
            Err(e) => {
                return Err(BuildError::Index(e));
            },
        }
        blob.extend_from_slice(payload.data.as_slice());
        assert(index_entries(s).take(i + 1) =~= index_entries(s).take(i as int).push(
            index_entries(s)[i as int],
        ));
        i += 1;
    }
    assert(index_entries(s).take(n as int) =~= index_entries(s));
    assert(s.take(n as int) =~= s);
    match builder.finish() {
        Ok(index) => Ok(Archive { index, blob }),
        Err(e) => Err(BuildError::Index(e)),
    }
}

/// What the contracts see of a list of source files.
pub open spec fn sources(files: Seq<SourceFile>) -> Seq<Member> {
    files.map_values(|f: SourceFile| f@)
}

/// What compressing a list of files gave: the payloads of the files that
/// the encoder took, in the order of the files, and the positions of the
/// files that it failed on, so that the caller can report them.
#[derive(Debug)]
pub struct Compressed {
    pub payloads: Vec<Payload>,
    pub skipped: Vec<usize>,
}

/// Compresses every file. A file on which the encoder fails is skipped and
/// its position recorded; the others keep their order.
pub fn compress_all(files: &Vec<SourceFile>) -> (res: Compressed)
    ensures
        members(res.payloads@) == compressed(sources(files@)),
        as_ints(res.skipped@) == skipped(sources(files@)),
{
    let mut payloads: Vec<Payload> = Vec::new();
    let mut left_out: Vec<usize> = Vec::new();
    let mut i: usize = 0;
    assert(sources(files@).take(0) =~= Seq::<Member>::empty());
    assert(members(payloads@) =~= Seq::<Member>::empty());
    assert(as_ints(left_out@) =~= Seq::<int>::empty());
    while i < files.len()
        invariant
            i <= files.len(),
            members(payloads@) == compressed(sources(files@).take(i as int)),
            as_ints(left_out@) == skipped(sources(files@).take(i as int)),
        decreases files.len() - i,
    {
        let ghost before = members(payloads@);
        let ghost out_before = as_ints(left_out@);
        let file = &files[i];
        proof {
            let now = sources(files@).take(i + 1);
            assert(now.drop_last() =~= sources(files@).take(i as int));
            assert(now.last() == file@);
        }
        match compress(file.content.as_slice()) {
            Ok(stream) => {
                let key = slice_to_vec(file.key.as_slice());
                payloads.push(Payload { key, data: stream });
                assert(members(payloads@) =~= before.push(
                    Member { key: file.key@, data: stream@ },
                ));
            },
            Err(_) => {
                left_out.push(i);
                assert(as_ints(left_out@) =~= out_before.push(i as int));
            },
        }
        i += 1;
    }
    assert(sources(files@).take(files.len() as int) =~= sources(files@));
    Compressed { payloads, skipped: left_out }
}

/// Builds an archive from the files of a source tree: compresses each
/// file, puts the files into key order, and lays out blob and index. The
/// order in which the files are given does not matter. A caller that wants
/// to report the files that were left out calls `compress_all` and
/// `assemble` in turn.
pub fn build(files: &Vec<SourceFile>) -> (res: Result<Archive, BuildError>)
    ensures
        match res {
            Ok(archive) => built(sources(files@)) == Ok::<ArchiveView, BuildError>(archive@)
                && is_index_of(
                archive@.index,
                index_entries(key_order(compressed(sources(files@)))),
            ),
            Err(e) => built(sources(files@)) == Err::<ArchiveView, BuildError>(e),
        },
{
    let compressed = compress_all(files);
    assemble(&compressed.payloads)
}

} // verus!
