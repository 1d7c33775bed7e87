//! The extent resolver: block extents to absolute byte ranges, bounded by
//! the partition image.

use vstd::prelude::*;
use crate::error::{ExtractError, ManifestField};
use crate::manifest::Extent;
use crate::stream::{ByteRange, all_within};

verus! {

/// The byte range of extent `e`, or why it has none.
pub open spec fn resolve_spec(e: Extent, bs: nat, plen: nat) -> Result<ByteRange, ExtractError> {
    match e.start_block {
        None => Err(ExtractError::MalformedManifest(ManifestField::StartBlock)),
        Some(s) => match e.num_blocks {
            None => Err(ExtractError::MalformedManifest(ManifestField::NumBlocks)),
            Some(n) => if s * bs + n * bs <= plen {
                Ok(ByteRange { start: (s * bs) as usize, len: (n * bs) as usize })
            } else {
                Err(ExtractError::ExtentOutOfBounds)
            },
        },
    }
}

/// The byte ranges of a list of extents, or the error of the first one
/// that has none.
pub open spec fn resolve_all(es: Seq<Extent>, bs: nat, plen: nat) -> Result<Seq<ByteRange>, ExtractError>
    decreases es.len(),
{
    if es.len() == 0 {
        Ok(seq![])
    } else {
        match resolve_all(es.drop_last(), bs, plen) {
            Err(e) => Err(e),
            Ok(v) => match resolve_spec(es.last(), bs, plen) {
                Err(e) => Err(e),
                Ok(x) => Ok(v.push(x)),
            },
        }
    }
}

/// Resolve one extent against a partition image of `plen` bytes.
pub fn resolve_extent(e: &Extent, block_size: usize, plen: usize) -> (r: Result<ByteRange, ExtractError>)
    ensures
        r == resolve_spec(*e, block_size as nat, plen as nat),
{
    let s = match e.start_block {
        None => return Err(ExtractError::MalformedManifest(ManifestField::StartBlock)),
        Some(s) => s,
    };
    let n = match e.num_blocks {
        None => return Err(ExtractError::MalformedManifest(ManifestField::NumBlocks)),
        Some(n) => n,
    };
    proof {
        assert(s * block_size <= u64::MAX * usize::MAX) by (nonlinear_arith)
            requires s <= u64::MAX, block_size <= usize::MAX;
        assert(n * block_size <= u64::MAX * usize::MAX) by (nonlinear_arith)
            requires n <= u64::MAX, block_size <= usize::MAX;
    }
    let off: u128 = s as u128 * block_size as u128;
    let len: u128 = n as u128 * block_size as u128;
    if off > plen as u128 || len > plen as u128 - off {
        return Err(ExtractError::ExtentOutOfBounds);
    }
    Ok(ByteRange { start: off as usize, len: len as usize })
}

/// An error among the first extents is the error of the whole list.
pub proof fn lemma_resolve_prefix_err(es: Seq<Extent>, bs: nat, plen: nat, i: int)
    requires
        0 <= i <= es.len(),
        resolve_all(es.take(i), bs, plen) is Err,
    ensures
        resolve_all(es, bs, plen) == resolve_all(es.take(i), bs, plen),
    decreases es.len(),
{
    if i < es.len() {
        assert(es.drop_last().take(i) =~= es.take(i));
        lemma_resolve_prefix_err(es.drop_last(), bs, plen, i);
    } else {
        assert(es.take(i) =~= es);
    }
}

/// Resolved ranges are one per extent, and all lie inside the image.
pub proof fn lemma_resolve_within(es: Seq<Extent>, bs: nat, plen: nat)
    requires
        resolve_all(es, bs, plen) is Ok,
    ensures
        resolve_all(es, bs, plen)->Ok_0.len() == es.len(),
        all_within(resolve_all(es, bs, plen)->Ok_0, plen as int),
    decreases es.len(),
{
    if es.len() > 0 {
        lemma_resolve_within(es.drop_last(), bs, plen);
        let v = resolve_all(es.drop_last(), bs, plen)->Ok_0;
        let x = resolve_spec(es.last(), bs, plen)->Ok_0;
        assert forall|i: int| 0 <= i < v.push(x).len() implies #[trigger] v.push(x)[i].within(plen as int) by {
            if i < v.len() {
                assert(v[i].within(plen as int));
            }
        }
    }
}

} // verus!
