//! The integrity verifier: the digest of an operation's source bytes
//! against the one the manifest declares.

use vstd::prelude::*;
use sha2::Digest;
use crate::error::ExtractError;

verus! {

/// The SHA-256 digest of a byte sequence.
pub uninterp spec fn sha256_of(data: Seq<u8>) -> Seq<u8>;

/// Relies on sha2::Sha256::digest: the SHA-256 digest of the bytes, which
/// is 32 bytes long and depends on the bytes alone.
#[verifier::external_body]
fn sha256_digest(data: &[u8]) -> (r: Vec<u8>)
    ensures
        r@ == sha256_of(data@),
        r@.len() == 32,
{
    sha2::Sha256::digest(data).to_vec()
}

/// Whether a computed digest equals the expected one, byte for byte.
pub fn digest_matches(computed: &[u8], expected: &[u8]) -> (r: bool)
    ensures
        r == (computed@ == expected@),
{
    if computed.len() != expected.len() {
        return false;
    }
    let mut i: usize = 0;
    while i < computed.len()
        invariant
            i <= computed@.len() == expected@.len(),
            forall|k: int| 0 <= k < i ==> computed@[k] == expected@[k],
        decreases computed@.len() - i,
    {
        if computed[i] != expected[i] {
            return false;
        }
        i = i + 1;
    }
    assert(computed@ =~= expected@);
    true
}

/// A copy of a byte slice.
fn copy_bytes(s: &[u8]) -> (r: Vec<u8>)
    ensures
        r@ == s@,
{
    let mut r: Vec<u8> = Vec::new();
    let mut i: usize = 0;
    while i < s.len()
        invariant
            i <= s@.len(),
            r@ == s@.take(i as int),
        decreases s@.len() - i,
    {
        r.push(s[i]);
        i = i + 1;
        assert(r@ =~= s@.take(i as int));
    }
    assert(s@.take(i as int) =~= s@);
    r
}

/// The verdict of checking `data` against the expected digest `expected`.
pub open spec fn hash_verdict(data: Seq<u8>, expected: Seq<u8>) -> bool {
    sha256_of(data) == expected
}

/// Check the digest of `data` against `expected`; on a mismatch the error
/// carries both digests.
pub fn verify_sha256(data: &[u8], expected: &[u8]) -> (r: Result<(), ExtractError>)
    ensures
        r is Ok <==> hash_verdict(data@, expected@),
        match r {
            Ok(()) => true,
            Err(ExtractError::HashMismatch { expected: x, computed: c }) => x@ == expected@ && c@
                == sha256_of(data@),
            Err(_) => false,
        },
{
    let got = sha256_digest(data);
    if digest_matches(got.as_slice(), expected) {
        Ok(())
    } else {
        Err(ExtractError::HashMismatch { expected: copy_bytes(expected), computed: got })
    }
}

/// Checking the same bytes against the same digest twice gives the same
/// pass or fail result.
pub proof fn lemma_verify_repeatable(
    data: Seq<u8>,
    expected: Seq<u8>,
    r1: Result<(), ExtractError>,
    r2: Result<(), ExtractError>,
)
    requires
        r1 is Ok <==> hash_verdict(data, expected),
        r2 is Ok <==> hash_verdict(data, expected),
    ensures
        r1 is Ok <==> r2 is Ok,
{
}

} // verus!
