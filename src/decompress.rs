//! The two compressed-replace variants: the source bytes decoded by an
//! outside decompressor, read no further than a given number of bytes.

use vstd::prelude::*;
use std::io::Read;

verus! {

/// The bytes that a bzip2 decoder yields from `data` before it ends.
pub uninterp spec fn bz_decoded(data: Seq<u8>) -> Seq<u8>;

/// Whether a bzip2 decoder reads `limit` bytes from `data`, or all of its
/// output where that is shorter, without reporting an error.
pub uninterp spec fn bz_ok(data: Seq<u8>, limit: nat) -> bool;

/// The bytes that liblzma's auto-detecting decoder (xz, or legacy .lzma)
/// yields from `data` before it ends.
pub uninterp spec fn xz_decoded(data: Seq<u8>) -> Seq<u8>;

/// Whether that decoder starts on `data` and reads `limit` bytes from it,
/// or all of its output where that is shorter, without reporting an error.
pub uninterp spec fn xz_ok(data: Seq<u8>, limit: nat) -> bool;

/// The first `limit` bytes of `s`, or all of it where it is shorter.
pub open spec fn prefix_upto(s: Seq<u8>, limit: nat) -> Seq<u8> {
    if s.len() <= limit {
        s
    } else {
        s.take(limit as int)
    }
}

/// Relies on bzip2::read::BzDecoder: reading it yields the decompressed
/// bytes of the bzip2 stream in `data`; reading stops after `limit` bytes.
/// `None` where the decoder reports an error first; which of the two comes
/// depends on the data and the limit alone.
#[verifier::external_body]
pub(crate) fn bz_decompress(data: &[u8], limit: u64) -> (r: Option<Vec<u8>>)
    ensures
        r is Some <==> bz_ok(data@, limit as nat),
        r matches Some(v) ==> v@ == prefix_upto(bz_decoded(data@), limit as nat),
{
    let mut out = Vec::new();
    match bzip2::read::BzDecoder::new(data).take(limit).read_to_end(&mut out) {
        Ok(_) => Some(out),
        Err(_) => None,
    }
}

/// Relies on lzma::LzmaReader::new_decompressor, which starts liblzma's
/// auto-detecting decoder (xz, or legacy .lzma): reading it yields the
/// decompressed bytes of `data`; reading stops after `limit` bytes. `None`
/// where the decoder cannot start or reports an error; which of the two
/// comes depends on the data and the limit alone.
#[verifier::external_body]
pub(crate) fn xz_decompress(data: &[u8], limit: u64) -> (r: Option<Vec<u8>>)
    ensures
        r is Some <==> xz_ok(data@, limit as nat),
        r matches Some(v) ==> v@ == prefix_upto(xz_decoded(data@), limit as nat),
{
    let mut out = Vec::new();
    let reader = match lzma::LzmaReader::new_decompressor(data) {
        Ok(reader) => reader,
        Err(_) => return None,
    };
    match reader.take(limit).read_to_end(&mut out) {
        Ok(_) => Some(out),
        Err(_) => None,
    }
}

} // verus!
