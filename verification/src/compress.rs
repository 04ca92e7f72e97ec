//! The content compressor: one file's bytes in, one gzip stream out.

use std::io::Write;
use vstd::prelude::*;

verus! {

#[verifier::external_type_specification]
#[verifier::external_body]
pub struct ExIoError(std::io::Error);

/// The gzip stream that the `deflate` crate's `GzEncoder` writes for `data`
/// at its best compression level under a blank header, or `None` where the
/// encoder reports an error.
pub uninterp spec fn gz_encoded(data: Seq<u8>) -> Option<Seq<u8>>;

/// `deflate::write::GzEncoder` over a vector, fed `data` in one piece and
/// finished. The header that it is given holds no name, no comment, no
/// time, and a fixed operating-system field, so the stream depends on
/// `data` alone.
#[verifier::external_body]
pub(crate) fn gz_encode(data: &[u8]) -> (res: Result<Vec<u8>, std::io::Error>)
    ensures
        match res {
            Ok(stream) => gz_encoded(data@) == Some(stream@),
            Err(_) => gz_encoded(data@) is None,
        },
{
    let header = gzip_header::GzBuilder::new().os(gzip_header::FileSystemType::Unix);
    let mut encoder = deflate::write::GzEncoder::from_builder(
        header,
        Vec::new(),
        deflate::Compression::Best,
    );
    encoder.write_all(data)?;
    encoder.finish()
}

/// The encoder failed on a file's content.
#[derive(Clone, Copy, Debug, PartialEq, Eq, Structural)]
pub struct CompressError;

/// Compresses one file's content. The same content always gives the same
/// stream; the stream is stored as it is and never decompressed here.
pub fn compress(data: &[u8]) -> (res: Result<Vec<u8>, CompressError>)
    ensures
        match res {
            Ok(stream) => gz_encoded(data@) == Some(stream@),
            Err(_) => gz_encoded(data@) is None,
        },
{
    match gz_encode(data) {
        Ok(stream) => Ok(stream),
        Err(_) => Err(CompressError),
    }
}

} // verus!
