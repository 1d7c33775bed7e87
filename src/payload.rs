//! The payload container's framing: a magic tag, a format version, the
//! manifest's and metadata signature's sizes, then the manifest, the
//! signature and the data blob.

use vstd::prelude::*;
use crate::error::ExtractError;

verus! {

/// Where the parts of a payload lie.
#[derive(Clone, Copy, Debug, PartialEq, Eq, Structural)]
pub struct PayloadHeader {
    pub file_format_version: u64,
    pub manifest_offset: usize,
    pub manifest_len: usize,
    pub data_offset: usize,
}

/// The tag a payload starts with.
pub open spec fn magic_spec() -> Seq<u8> {
    seq![0x43u8, 0x72u8, 0x41u8, 0x55u8]
}

/// The big-endian value of a byte sequence.
pub open spec fn be_value(s: Seq<u8>) -> nat
    decreases s.len(),
{
    if s.len() == 0 {
        0
    } else {
        be_value(s.drop_last()) * 256 + s.last() as nat
    }
}

pub open spec fn pow256(n: nat) -> nat
    decreases n,
{
    if n == 0 {
        1
    } else {
        256 * pow256((n - 1) as nat)
    }
}

/// The big-endian value of `b[at..at + n]`.
pub open spec fn be_at(b: Seq<u8>, at: int, n: int) -> nat {
    be_value(b.subrange(at, at + n))
}

/// Where the parts of the payload `b` lie, or why it is malformed.
pub open spec fn header_spec(b: Seq<u8>) -> Result<PayloadHeader, ExtractError> {
    if b.len() < 20 {
        Err(ExtractError::TruncatedPayload)
    } else {
        let version = be_at(b, 4, 8);
        let mlen = be_at(b, 12, 8);
        let fixed: int = if version > 1 { 24 } else { 20 };
        let sig: int = if version > 1 { be_at(b, 20, 4) as int } else { 0 };
        if b.len() < fixed || fixed + mlen + sig > b.len() {
            Err(ExtractError::TruncatedPayload)
        } else if b.take(4) != magic_spec() {
            Err(ExtractError::InvalidMagic)
        } else {
            Ok(
                PayloadHeader {
                    file_format_version: version as u64,
                    manifest_offset: fixed as usize,
                    manifest_len: mlen as usize,
                    data_offset: (fixed + mlen + sig) as usize,
                },
            )
        }
    }
}

proof fn lemma_pow256_mono(a: nat, b: nat)
    requires
        a <= b,
    ensures
        pow256(a) <= pow256(b),
    decreases b,
{
    if a < b {
        lemma_pow256_mono(a, (b - 1) as nat);
    }
}

/// Read `n` bytes from `at` as a big-endian integer.
fn read_be(b: &[u8], at: usize, n: usize) -> (v: u64)
    requires
        n <= 8,
        at + n <= b@.len(),
    ensures
        v == be_at(b@, at as int, n as int),
{
    let blen = b.len();
    let mut v: u64 = 0;
    let mut k: usize = 0;
    proof {
        reveal_with_fuel(pow256, 9);
        assert(b@.subrange(at as int, at as int) =~= Seq::<u8>::empty());
    }
    while k < n
        invariant
            k <= n <= 8,
            at + n <= b@.len() == blen,
            v == be_at(b@, at as int, k as int),
            v < pow256(k as nat),
            pow256(8) == 0x1_0000_0000_0000_0000,
        decreases n - k,
    {
        let x = b[at + k];
        proof {
            assert(b@.subrange(at as int, at + k + 1).drop_last() =~= b@.subrange(at as int, at + k));
            assert(pow256((k + 1) as nat) == 256 * pow256(k as nat));
            lemma_pow256_mono((k + 1) as nat, 8);
            assert(v * 256 + x < pow256((k + 1) as nat)) by (nonlinear_arith)
                requires
                    v < pow256(k as nat),
                    x < 256,
                    pow256((k + 1) as nat) == 256 * pow256(k as nat),
            ;
        }
        v = v * 256 + x as u64;
        k = k + 1;
    }
    v
}

/// Locate the manifest and the data blob of a payload, checking its tag.
pub fn parse_header(b: &[u8]) -> (r: Result<PayloadHeader, ExtractError>)
    ensures
        r == header_spec(b@),
{
    if b.len() < 20 {
        return Err(ExtractError::TruncatedPayload);
    }
    let version = read_be(b, 4, 8);
    let mlen = read_be(b, 12, 8);
    let fixed: usize = if version > 1 {
        24
    } else {
        20
    };
    if b.len() < fixed {
        return Err(ExtractError::TruncatedPayload);
    }
    let sig: u64 = if version > 1 {
        read_be(b, 20, 4)
    } else {
        0
    };
    let rest = (b.len() - fixed) as u64;
    if mlen > rest || sig > rest - mlen {
        return Err(ExtractError::TruncatedPayload);
    }
    if !(b[0] == 0x43u8 && b[1] == 0x72u8 && b[2] == 0x41u8 && b[3] == 0x55u8) {
        proof {
            assert(b@.take(4)[0] == b@[0] && b@.take(4)[1] == b@[1]);
            assert(b@.take(4)[2] == b@[2] && b@.take(4)[3] == b@[3]);
            if b@.take(4) == magic_spec() {
                assert(magic_spec()[0] == 0x43u8);
                assert(magic_spec()[1] == 0x72u8);
                assert(magic_spec()[2] == 0x41u8);
                assert(magic_spec()[3] == 0x55u8);
            }
        }
        return Err(ExtractError::InvalidMagic);
    }
    proof {
        assert(b@.take(4) =~= magic_spec());
    }
    Ok(
        PayloadHeader {
            file_format_version: version,
            manifest_offset: fixed,
            manifest_len: mlen as usize,
            data_offset: fixed + mlen as usize + sig as usize,
        },
    )
}

} // verus!
