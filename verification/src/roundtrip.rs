//! What holds between building an archive and looking paths up in it.

use crate::archive::BuildError;
use crate::compress::gz_encoded;
use crate::index::{entry_map, entry_position};
use crate::key::{key_lt, lemma_key_lt_irreflexive};
use crate::layout::{
    assembled, blob_of, built, compressed, index_entries, key_order, keys_ascend,
    lemma_blob_grows, lemma_key_order_exists, offset_at, packed_ranges, payload_lengths,
    ArchiveView, Member,
};
use crate::site::{index_document, resolved};
use crate::slice::{fits_field, lemma_unpack_pack};
use vstd::prelude::*;
use vstd::seq_lib::to_multiset_contains;
use vstd::utf8::encode_utf8;

verus! {

/// Where a payload starts depends on the payloads before it alone.
pub proof fn lemma_offset_of_front(s: Seq<Member>, n: int, i: int)
    requires
        0 <= i <= n <= s.len(),
    ensures
        offset_at(payload_lengths(s.take(n)), i) == offset_at(payload_lengths(s), i),
    decreases i,
{
    if i > 0 {
        lemma_offset_of_front(s, n, i - 1);
    }
}

/// Each payload lies in the blob at its offset, whole.
pub proof fn lemma_blob_holds(s: Seq<Member>, i: int)
    requires
        0 <= i < s.len(),
    ensures
        offset_at(payload_lengths(s), i) + s[i].data.len() <= blob_of(s).len(),
        blob_of(s).subrange(
            offset_at(payload_lengths(s), i),
            offset_at(payload_lengths(s), i) + s[i].data.len(),
        ) == s[i].data,
    decreases s.len(),
{
    let n = s.len() - 1;
    let front = s.drop_last();
    assert(s.take(n) =~= front);
    assert(s.take(n + 1) =~= s);
    lemma_blob_grows(s, n);
    lemma_blob_grows(s, i);
    assert(blob_of(s) =~= blob_of(front) + s[n].data);
    if i == n {
        assert(blob_of(s).subrange(
            offset_at(payload_lengths(s), i),
            offset_at(payload_lengths(s), i) + s[i].data.len(),
        ) =~= s[i].data);
    } else {
        lemma_blob_holds(front, i);
        lemma_offset_of_front(s, n, i);
        assert(blob_of(s).subrange(
            offset_at(payload_lengths(s), i),
            offset_at(payload_lengths(s), i) + s[i].data.len(),
        ) =~= blob_of(front).subrange(
            offset_at(payload_lengths(front), i),
            offset_at(payload_lengths(front), i) + front[i].data.len(),
        ));
    }
}

/// In the index of members in key order each key stands once, with the
/// packed range of its payload.
pub proof fn lemma_entry_of_member(s: Seq<Member>, i: int)
    requires
        keys_ascend(s),
        0 <= i < s.len(),
    ensures
        entry_map(index_entries(s)).contains_key(s[i].key),
        entry_map(index_entries(s))[s[i].key] == packed_ranges(payload_lengths(s))[i],
{
    let entries = index_entries(s);
    let key = s[i].key;
    assert(entries[i].0 == key);
    let found = entry_position(entries, key);
    assert(entries[found].0 == s[found].key);
    if found != i {
        lemma_key_lt_irreflexive(key);
        if found < i {
            assert(key_lt(s[found].key, s[i].key));
        } else {
            assert(key_lt(s[i].key, s[found].key));
        }
    }
    assert(entry_map(entries)[key] == entries[found].1);
}

/// A key of the index is the key of a member.
pub proof fn lemma_member_of_entry(s: Seq<Member>, key: Seq<u8>)
    requires
        entry_map(index_entries(s)).contains_key(key),
    ensures
        exists|i: int| 0 <= i < s.len() && #[trigger] s[i].key == key,
{
    let entries = index_entries(s);
    let i = entry_position(entries, key);
    assert(entries[i].0 == key);
    assert(s[i].key == key);
}

/// Every file of an archive is found under its key, and what is found is
/// its payload: whenever an archive is assembled, a lookup of a member's
/// key in the entries of its index cuts that member's payload out of its
/// blob.
pub proof fn lemma_archive_serves(all: Seq<Member>, archive: ArchiveView, i: int)
    requires
        assembled(all) == Ok::<ArchiveView, BuildError>(archive),
        0 <= i < all.len(),
    ensures
        resolved(entry_map(index_entries(key_order(all))), archive.blob, all[i].key) == Some(
            all[i].data,
        ),
{
    let s = key_order(all);
    lemma_key_order_exists(all);
    to_multiset_contains(all, all[i]);
    to_multiset_contains(s, all[i]);
    assert(all.contains(all[i]));
    let j = choose|j: int| 0 <= j < s.len() && s[j] == all[i];
    lemma_entry_of_member(s, j);
    let lengths = payload_lengths(s);
    assert(fits_field(offset_at(lengths, j)) && fits_field(lengths[j]));
    lemma_unpack_pack(offset_at(lengths, j), lengths[j]);
    lemma_blob_holds(s, j);
}

/// A file whose content the encoder takes has a payload: its key with the
/// encoded content.
pub proof fn lemma_compressed_holds(files: Seq<Member>, i: int)
    requires
        0 <= i < files.len(),
        gz_encoded(files[i].data) is Some,
    ensures
        compressed(files).contains(
            Member { key: files[i].key, data: gz_encoded(files[i].data).unwrap() },
        ),
    decreases files.len(),
{
    let n = files.len() - 1;
    let m = Member { key: files[i].key, data: gz_encoded(files[i].data).unwrap() };
    if i == n {
        let at = compressed(files.drop_last()).len() as int;
        assert(compressed(files)[at] == m);
    } else {
        lemma_compressed_holds(files.drop_last(), i);
        let at = choose|at: int|
            0 <= at < compressed(files.drop_last()).len() && compressed(files.drop_last())[at]
                == m;
        assert(compressed(files)[at] == m);
    }
}

/// Building and then looking up gives back what was put in: whenever an
/// archive is built, a lookup of a file's key in the entries of its index
/// cuts that file's content out of its blob, compressed.
pub proof fn lemma_built_serves(files: Seq<Member>, archive: ArchiveView, i: int)
    requires
        built(files) == Ok::<ArchiveView, BuildError>(archive),
        0 <= i < files.len(),
        gz_encoded(files[i].data) is Some,
    ensures
        resolved(
            entry_map(index_entries(key_order(compressed(files)))),
            archive.blob,
            files[i].key,
        ) == gz_encoded(files[i].data),
{
    let all = compressed(files);
    let m = Member { key: files[i].key, data: gz_encoded(files[i].data).unwrap() };
    lemma_compressed_holds(files, i);
    let j = choose|j: int| 0 <= j < all.len() && all[j] == m;
    lemma_archive_serves(all, archive, j);
}

/// A path that is no file's key, and below which no file is the index
/// document, is not found.
pub proof fn lemma_archive_lacks(all: Seq<Member>, archive: ArchiveView, key: Seq<u8>)
    requires
        assembled(all) == Ok::<ArchiveView, BuildError>(archive),
        forall|i: int| 0 <= i < all.len() ==> (#[trigger] all[i]).key != key,
        forall|i: int| 0 <= i < all.len() ==> (#[trigger] all[i]).key != key + index_document(),
    ensures
        resolved(entry_map(index_entries(key_order(all))), archive.blob, key) is None,
{
    let s = key_order(all);
    lemma_key_order_exists(all);
    let entries = entry_map(index_entries(s));
    assert forall|k: Seq<u8>| k == key || k == key + index_document() implies !entries.contains_key(
        k,
    ) by {
        if entries.contains_key(k) {
            lemma_member_of_entry(s, k);
            let j = choose|j: int| 0 <= j < s.len() && #[trigger] s[j].key == k;
            to_multiset_contains(all, s[j]);
            to_multiset_contains(s, s[j]);
            assert(s.contains(s[j]));
            let a = choose|a: int| 0 <= a < all.len() && all[a] == s[j];
            assert(all[a].key == k);
        }
    }
}

/// A directory resolves to its index document: a path that has no entry of
/// its own, but below which `/index.html` has one, resolves to what
/// `/index.html` below it resolves to.
pub proof fn lemma_directory_resolves_to_index(
    entries: Map<Seq<u8>, u64>,
    blob: Seq<u8>,
    directory: Seq<u8>,
)
    requires
        !entries.contains_key(directory),
        entries.contains_key(directory + index_document()),
    ensures
        resolved(entries, blob, directory) == resolved(
            entries,
            blob,
            directory + index_document(),
        ),
{
}

/// Every payload is the payload of a file: compressing adds no key.
pub proof fn lemma_compressed_from_file(files: Seq<Member>, j: int)
    requires
        0 <= j < compressed(files).len(),
    ensures
        exists|i: int| 0 <= i < files.len() && #[trigger] files[i].key == compressed(files)[j].key,
    decreases files.len(),
{
    let n = files.len() - 1;
    let front = files.drop_last();
    if gz_encoded(files.last().data) is Some && j == compressed(front).len() {
        assert(files[n].key == compressed(files)[j].key);
    } else {
        lemma_compressed_from_file(front, j);
        let i = choose|i: int| 0 <= i < front.len() && #[trigger] front[i].key == compressed(front)[j].key;
        assert(files[i].key == compressed(files)[j].key);
    }
}

/// A built archive serves a directory through its index document: where a
/// file is keyed as `/index.html` below a directory, and no file is keyed
/// as the directory itself, a lookup of the directory gives that file's
/// content, compressed.
pub proof fn lemma_built_serves_directory(
    files: Seq<Member>,
    archive: ArchiveView,
    i: int,
    directory: Seq<u8>,
)
    requires
        built(files) == Ok::<ArchiveView, BuildError>(archive),
        0 <= i < files.len(),
        files[i].key == directory + index_document(),
        gz_encoded(files[i].data) is Some,
        forall|j: int| 0 <= j < files.len() ==> (#[trigger] files[j]).key != directory,
    ensures
        resolved(
            entry_map(index_entries(key_order(compressed(files)))),
            archive.blob,
            directory,
        ) == gz_encoded(files[i].data),
{
    let all = compressed(files);
    let s = key_order(all);
    let entries = entry_map(index_entries(s));
    lemma_key_order_exists(all);
    if entries.contains_key(directory) {
        lemma_member_of_entry(s, directory);
        let at = choose|at: int| 0 <= at < s.len() && #[trigger] s[at].key == directory;
        to_multiset_contains(all, s[at]);
        to_multiset_contains(s, s[at]);
        assert(s.contains(s[at]));
        let a = choose|a: int| 0 <= a < all.len() && all[a] == s[at];
        lemma_compressed_from_file(files, a);
    }
    let m = Member { key: files[i].key, data: gz_encoded(files[i].data).unwrap() };
    lemma_compressed_holds(files, i);
    let a = choose|a: int| 0 <= a < all.len() && all[a] == m;
    to_multiset_contains(all, m);
    to_multiset_contains(s, m);
    assert(all.contains(m));
    let at = choose|at: int| 0 <= at < s.len() && s[at] == m;
    lemma_entry_of_member(s, at);
    lemma_built_serves(files, archive, i);
    lemma_directory_resolves_to_index(entries, archive.blob, directory);
}

/// The bytes of two texts, one after the other, are the bytes of the one
/// text after the other.
pub proof fn lemma_bytes_of_joined_text(front: Seq<char>, back: Seq<char>)
    ensures
        encode_utf8(front + back) == encode_utf8(front) + encode_utf8(back),
    decreases front.len(),
{
    if front.len() == 0 {
        assert(front + back =~= back);
        assert(encode_utf8(front) + encode_utf8(back) =~= encode_utf8(back));
    } else {
        assert((front + back).drop_first() =~= front.drop_first() + back);
        lemma_bytes_of_joined_text(front.drop_first(), back);
        assert(encode_utf8(front + back) =~= encode_utf8(front) + encode_utf8(back));
    }
}

/// The path of the index document of a directory, as bytes, is the key
/// that a lookup of the directory falls back to.
pub proof fn lemma_index_document_path(directory: Seq<char>)
    ensures
        encode_utf8(directory + "/index.html"@) == encode_utf8(directory) + index_document(),
{
    lemma_bytes_of_joined_text(directory, "/index.html"@);
}

} // verus!
