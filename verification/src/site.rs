//! The archive store: an opened index beside the bytes of the blob, and the
//! lookup that resolves a request path to the payload stored for it.

use crate::index::{
    decoded_index, is_index_image, map_from_bytes, map_get, map_image, trailer_fits,
};
use vstd::bytes::u64_from_le_bytes;
use crate::slice::{range_length, range_offset, unpack_from_u64};
use vstd::prelude::*;
use vstd::slice::{slice_subrange, slice_to_vec};
use vstd::string::*;

verus! {

/// Why a site could not be opened.
#[derive(Clone, Copy, Debug, PartialEq, Eq, Structural)]
pub enum OpenError {
    /// The bytes of the index are not those of an index.
    CorruptIndex,
}

/// The bytes of `/index.html`, which are appended to a path that has no
/// entry of its own.
pub open spec fn index_document() -> Seq<u8> {
    "/index.html".spec_bytes()
}

/// The packed range that a key resolves to: that of the key's own entry,
/// else that of the index document below it, else none.
pub open spec fn found_range(entries: Map<Seq<u8>, u64>, key: Seq<u8>) -> Option<u64> {
    if entries.contains_key(key) {
        Some(entries[key])
    } else if entries.contains_key(key + index_document()) {
        Some(entries[key + index_document()])
    } else {
        None
    }
}

/// The part of the blob that a packed range names, or `None` where the
/// range reaches beyond the blob.
pub open spec fn cut(blob: Seq<u8>, range: u64) -> Option<Seq<u8>> {
    if range_offset(range) + range_length(range) <= blob.len() {
        Some(blob.subrange(range_offset(range), range_offset(range) + range_length(range)))
    } else {
        None
    }
}

/// What a lookup of `key` gives: the payload that the found range names.
pub open spec fn resolved(entries: Map<Seq<u8>, u64>, blob: Seq<u8>, key: Seq<u8>) -> Option<
    Seq<u8>,
> {
    match found_range(entries, key) {
        Some(range) => cut(blob, range),
        None => None,
    }
}

/// One servable archive: its index, opened, and its blob, borrowed from
/// whoever holds the mapping. Nothing in it changes after `new`.
pub struct Site<'a> {
    index: fst::Map,
    archive: &'a [u8],
}

impl<'a> Site<'a> {
    /// The bytes that the index was opened from.
    pub closed spec fn image(&self) -> Seq<u8> {
        map_image(self.index)
    }

    /// The bytes of the blob.
    pub closed spec fn blob(&self) -> Seq<u8> {
        self.archive@
    }

    /// The entries of the index: each key with its packed range.
    pub open spec fn entries(&self) -> Map<Seq<u8>, u64> {
        decoded_index(self.image()).unwrap()
    }

    /// Whether the index is one that a builder wrote. Only such an index can
    /// be searched: a search in bytes that are damaged past their header
    /// and trailer may panic. An index that `build` or
    /// `IndexBuilder::finish` wrote is one (`lemma_finished_index_reads`).
    pub open spec fn wf(&self) -> bool {
        is_index_image(self.image()) && decoded_index(self.image()) is Some
    }

    /// Opens a site from the bytes of its index and the bytes of its blob.
    ///
    /// Refused as corrupt are fewer than 32 bytes, bytes whose trailer
    /// records a size beyond the address space, and bytes whose header or
    /// trailer the `fst` crate refuses. That is all that can be told from
    /// the bytes: nothing that this library can run tells an index that a
    /// builder wrote from one that is damaged further in. So the site that
    /// is opened is well-formed exactly when a builder wrote the bytes, and
    /// lookups are for well-formed sites. An index that `build` or
    /// `IndexBuilder::finish` wrote is always opened.
    pub fn new(index: Vec<u8>, archive: &'a [u8]) -> (res: Result<Site<'a>, OpenError>)
        ensures
            match res {
                Ok(site) => trailer_fits(index@) && decoded_index(index@) is Some && site.image()
                    == index@ && site.blob() == archive@,
                Err(e) => e == OpenError::CorruptIndex && (!trailer_fits(index@) || decoded_index(
                    index@,
                ) is None),
            },
            res matches Ok(site) ==> (site.wf() <==> is_index_image(index@)),
            index@.len() < 32 ==> res is Err,
    {
        let size = index.len();
        if size >= 32 {
            let root = u64_from_le_bytes(slice_subrange(index.as_slice(), size - 8, size));
            let count = u64_from_le_bytes(slice_subrange(index.as_slice(), size - 16, size - 8));
            if root > usize::MAX as u64 || count > usize::MAX as u64 {
                return Err(OpenError::CorruptIndex);
            }
        }
        match map_from_bytes(index) {
            Ok(map) => Ok(Site { index: map, archive }),
            Err(_) => Err(OpenError::CorruptIndex),
        }
    }

    /// Resolves a request path to the payload stored for it: that of the
    /// path itself, else that of `/index.html` below it. What is found is a
    /// part of the blob, borrowed. A range that reaches beyond the blob
    /// resolves to nothing, whatever the index says.
    pub fn get(&self, path: &str) -> (content: Option<&'a [u8]>)
        requires
            self.wf(),
        ensures
            match content {
                Some(bytes) => resolved(self.entries(), self.blob(), path.spec_bytes()) == Some(
                    bytes@,
                ),
                None => resolved(self.entries(), self.blob(), path.spec_bytes()) is None,
            },
            content matches Some(bytes) ==> bytes@.len() <= self.blob().len(),
    {
        let key = path.as_bytes();
        let range = match map_get(&self.index, key) {
            Some(range) => range,
            None => {
                let mut below = slice_to_vec(key);
                below.extend_from_slice("/index.html".as_bytes());
                assert(below@ =~= key@ + index_document());
                match map_get(&self.index, below.as_slice()) {
                    Some(range) => range,
                    None => {
                        return None;
                    },
                }
            },
        };
        let (offset, length) = unpack_from_u64(range);
        let size = self.archive.len();
        match offset.checked_add(length) {
            Some(end) => {
                if end <= size {
                    Some(slice_subrange(self.archive, offset, end))
                } else {
                    None
                }
            },
            None => None,
        }
    }
}

} // verus!
