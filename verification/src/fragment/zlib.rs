//! The zlib layer: compression by `flate2`, decompression under a size cap.

use std::io::{Read, Write};

use flate2::read::ZlibDecoder;
use flate2::write::ZlibEncoder;
use flate2::Compression;
use vstd::prelude::*;

use crate::fragment::error::{FragmentError, FragmentErrorView};

verus! {

/// The size of mosh's decompression buffer: what inflates past it is an error.
pub const DECOMPRESS_LIMIT: usize = 4 * 1024 * 1024;

/// The zlib stream that `flate2` makes of `input` at its default level.
pub uninterp spec fn zlib_deflated(input: Seq<u8>) -> Seq<u8>;

/// What `flate2` reads from the zlib stream `input` when it is asked for at most
/// `limit` bytes: the bytes, or the words of the error it met.
pub uninterp spec fn zlib_inflated(input: Seq<u8>, limit: u64) -> Result<Seq<u8>, Seq<char>>;

/// What a bounded read gave.
pub open spec fn inflated_view(r: Result<Vec<u8>, String>) -> Result<Seq<u8>, Seq<char>> {
    match r {
        Ok(bytes) => Ok(bytes@),
        Err(words) => Err(words@),
    }
}

/// The first `limit` bytes of `bytes`, or all of them where there are fewer.
pub open spec fn at_most(bytes: Seq<u8>, limit: u64) -> Seq<u8> {
    if bytes.len() <= limit {
        bytes
    } else {
        bytes.take(limit as int)
    }
}

/// Whether `bytes` are read from `stream`, as many of them as are asked for.
pub open spec fn inflates_to(stream: Seq<u8>, bytes: Seq<u8>) -> bool {
    forall|limit: u64| #[trigger]
        zlib_inflated(stream, limit) == Ok::<Seq<u8>, Seq<char>>(at_most(bytes, limit))
}

/// How long the stream of an input of `len` bytes may be.
pub open spec fn stream_limit(len: nat) -> nat {
    len * 31 / 16 + 1024
}

/// Calls `flate2::write::ZlibEncoder` with its default level on a `Vec`, whose
/// writes do not fail. Claimed of it: the stream depends on the input alone, and
/// `flate2::read::ZlibDecoder` reads the input back from it, as much of it as is
/// asked for. The stream has a header of two bytes, a checksum of four, and
/// something between them. It is less than twice the input and a constant: no
/// code is longer than 15 bits, no distance takes more than 13 bits besides its
/// code, and a block that is not the last holds over 31 KiB of input, against
/// which its tables of less than 600 bytes are small. Nothing else is claimed of
/// the stream's bytes.
#[verifier::external_body]
fn deflate(input: &[u8]) -> (r: Vec<u8>)
    ensures
        r@ == zlib_deflated(input@),
        inflates_to(r@, input@),
        6 < r@.len() <= stream_limit(input@.len()),
{
    let mut encoder = ZlibEncoder::new(Vec::new(), Compression::default());
    encoder.write_all(input).expect("writing to a Vec does not fail");
    encoder.finish().expect("writing to a Vec does not fail")
}

/// Reads at most `limit` bytes from a `flate2::read::ZlibDecoder`. Claimed of
/// it: the outcome depends on the stream and the limit alone, and a successful
/// read is no longer than the limit. Nothing is claimed of which streams are
/// corrupt, or of the words in which that is told.
#[verifier::external_body]
fn inflate_up_to(input: &[u8], limit: u64) -> (r: Result<Vec<u8>, String>)
    ensures
        inflated_view(r) == zlib_inflated(input@, limit),
        r matches Ok(bytes) ==> bytes@.len() <= limit,
{
    let mut out = Vec::new();
    match ZlibDecoder::new(input).take(limit).read_to_end(&mut out) {
        Ok(_) => Ok(out),
        Err(e) => Err(e.to_string()),
    }
}

/// The outcome of decompression, given a read of one byte more than the cap.
pub open spec fn capped(inflated: Result<Seq<u8>, Seq<char>>) -> Result<
    Seq<u8>,
    FragmentErrorView,
> {
    match inflated {
        Ok(bytes) => if bytes.len() > DECOMPRESS_LIMIT {
            Err(FragmentErrorView::AssemblyTooLarge)
        } else {
            Ok(bytes)
        },
        Err(words) => Err(FragmentErrorView::Inflate(words)),
    }
}

/// What the zlib stream `input` decompresses to under the cap.
pub open spec fn decompressed(input: Seq<u8>) -> Result<Seq<u8>, FragmentErrorView> {
    capped(zlib_inflated(input, (DECOMPRESS_LIMIT + 1) as u64))
}

/// What decompression returns.
pub open spec fn decompressed_view(r: Result<Vec<u8>, FragmentError>) -> Result<
    Seq<u8>,
    FragmentErrorView,
> {
    match r {
        Ok(bytes) => Ok(bytes@),
        Err(e) => Err(e@),
    }
}

/// Compresses `input`. What comes out decompresses to `input` again, or is
/// refused where `input` is over the cap, and is of a bounded length.
pub fn zlib_compress(input: &[u8]) -> (r: Vec<u8>)
    ensures
        r@ == zlib_deflated(input@),
        decompressed(r@) == (if input@.len() <= DECOMPRESS_LIMIT {
            Ok::<Seq<u8>, FragmentErrorView>(input@)
        } else {
            Err(FragmentErrorView::AssemblyTooLarge)
        }),
        6 < r@.len() <= stream_limit(input@.len()),
{
    deflate(input)
}

/// Applies the cap to a read of one byte more than the cap.
pub fn cap_inflated(inflated: Result<Vec<u8>, String>) -> (r: Result<Vec<u8>, FragmentError>)
    ensures
        decompressed_view(r) == capped(inflated_view(inflated)),
{
    match inflated {
        Ok(bytes) => {
            if bytes.len() > DECOMPRESS_LIMIT {
                Err(FragmentError::AssemblyTooLarge)
            } else {
                Ok(bytes)
            }
        },
        Err(words) => Err(FragmentError::Inflate(words)),
    }
}

/// Decompresses `input` without ever holding more than one byte over the cap.
pub fn zlib_decompress(input: &[u8]) -> (r: Result<Vec<u8>, FragmentError>)
    ensures
        decompressed_view(r) == decompressed(input@),
        r matches Ok(bytes) ==> bytes@.len() <= DECOMPRESS_LIMIT,
{
    cap_inflated(inflate_up_to(input, (DECOMPRESS_LIMIT + 1) as u64))
}

} // verus!
