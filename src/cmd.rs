//! The extraction command: its settings, and the literal-stream write that
//! every replace-style operation ends in.

use vstd::prelude::*;
use crate::decompress::{
    bz_decoded, bz_decompress, bz_ok, prefix_upto, xz_decoded, xz_decompress, xz_ok,
};
use crate::error::{ExtractError, ManifestField};
use crate::extent::{lemma_resolve_prefix_err, lemma_resolve_within, resolve_all, resolve_extent};
use crate::integrity::{hash_verdict, sha256_of, verify_sha256};
use crate::kind::{OpKind, op_kind, op_kind_spec};
use crate::manifest::InstallOperation;
use crate::stream::{
    ByteRange, align_up, all_within, lemma_prefix_step, lemma_total_prefix, range_total, scatter,
    stream_error, write_range,
};

verus! {

/// Settings of one extraction run.
#[derive(Clone, Debug)]
pub struct Cmd {
    /// Path of the payload file.
    pub payload: String,
    /// Number of worker threads; `None` or zero means all available.
    pub concurrency: Option<usize>,
    /// Output directory; `None` means one next to the payload.
    pub output_dir: Option<String>,
    /// Names of the partitions to extract; empty means all of them.
    pub partitions: Vec<String>,
    /// Skip the digest check of source data.
    pub skip_hash_check: bool,
}

/// The source range `(offset, length)` of an operation inside a data blob
/// of `blob_len` bytes, or why it has none.
pub open spec fn source_spec(op: InstallOperation, blob_len: nat) -> Result<(nat, nat), ExtractError> {
    match op.data_length {
        None => Err(ExtractError::MalformedManifest(ManifestField::DataLength)),
        Some(l) => match op.data_offset {
            None => Err(ExtractError::MalformedManifest(ManifestField::DataOffset)),
            Some(o) => if o + l <= blob_len {
                Ok((o as nat, l as nat))
            } else {
                Err(ExtractError::SourceRangeOutOfBounds)
            },
        },
    }
}

/// What writing the stream `s` into the ranges `v` did: either it
/// succeeded and the image is the written one, or it failed with the error
/// the stream's length calls for and the image is untouched.
pub open spec fn stream_post(
    r: Result<(), ExtractError>,
    before: Seq<u8>,
    after: Seq<u8>,
    v: Seq<ByteRange>,
    s: Seq<u8>,
    bs: nat,
) -> bool {
    match r {
        Ok(()) => stream_error(s.len(), v, bs) is None && after == scatter(before, v, s),
        Err(e) => stream_error(s.len(), v, bs) == Some(e) && after == before,
    }
}

/// The outcome of one operation on an image `before` of a partition, with
/// the data blob `blob`. A zero-fill operation reads no source: its extents
/// are resolved and nothing is written. Every other operation goes through
/// the steps in order: the source is sliced, its digest checked, the
/// extents resolved, then the kind dispatched, where an undefined or
/// unimplemented kind is rejected and the others write their stream.
pub open spec fn run_op_post(
    skip_hash_check: bool,
    op: InstallOperation,
    blob: Seq<u8>,
    before: Seq<u8>,
    after: Seq<u8>,
    bs: nat,
    r: Result<(), ExtractError>,
) -> bool {
    let k = op_kind_spec(op.op_type);
    let dst = resolve_all(op.dst_extents@, bs, before.len());
    if k == OpKind::Zero {
        after == before && match dst {
            Err(e) => r == Err::<(), ExtractError>(e),
            Ok(_) => r is Ok,
        }
    } else {
        match source_spec(op, blob.len()) {
            Err(e) => r == Err::<(), ExtractError>(e) && after == before,
            Ok((o, l)) => {
                let s = blob.subrange(o as int, (o + l) as int);
                if !skip_hash_check && op.data_sha256_hash is Some && !hash_verdict(
                    s,
                    op.data_sha256_hash->Some_0@,
                ) {
                    r matches Err(ExtractError::HashMismatch { expected: x, computed: c }) && x@
                        == op.data_sha256_hash->Some_0@ && c@ == sha256_of(s) && after == before
                } else {
                    match dst {
                        Err(e) => r == Err::<(), ExtractError>(e) && after == before,
                        Ok(v) => if k == OpKind::Invalid {
                            r == Err::<(), ExtractError>(ExtractError::InvalidOperation(op.op_type))
                                && after == before
                        } else if k == OpKind::Unsupported {
                            r == Err::<(), ExtractError>(
                                ExtractError::UnimplementedOperation(op.op_type),
                            ) && after == before
                        } else if range_total(v) >= usize::MAX {
                            r == Err::<(), ExtractError>(ExtractError::ExtentOutOfBounds) && after
                                == before
                        } else if k == OpKind::Replace {
                            stream_post(r, before, after, v, s, bs)
                        } else {
                            let limit = range_total(v) + 1;
                            let ok = if k == OpKind::ReplaceBz {
                                bz_ok(s, limit)
                            } else {
                                xz_ok(s, limit)
                            };
                            let d = if k == OpKind::ReplaceBz {
                                bz_decoded(s)
                            } else {
                                xz_decoded(s)
                            };
                            if ok {
                                stream_post(r, before, after, v, prefix_upto(d, limit), bs)
                            } else {
                                r == Err::<(), ExtractError>(ExtractError::DecompressFailed)
                                    && after == before
                            }
                        },
                    }
                }
            },
        }
    }
}

/// The total length of the ranges, where it is below `usize::MAX`.
fn total_len(v: &Vec<ByteRange>) -> (r: Option<usize>)
    ensures
        r matches Some(t) ==> t == range_total(v@) && t < usize::MAX,
        r is None ==> range_total(v@) >= usize::MAX,
{
    let mut t: usize = 0;
    let mut i: usize = 0;
    while i < v.len()
        invariant
            i <= v@.len(),
            t == range_total(v@.take(i as int)),
            t < usize::MAX,
        decreases v@.len() - i,
    {
        proof {
            lemma_prefix_step(Seq::<u8>::empty(), v@, Seq::<u8>::empty(), i as int);
            lemma_total_prefix(v@, i + 1);
        }
        if v[i].len >= usize::MAX - t {
            proof {
                lemma_total_prefix(v@, i + 1);
            }
            return None;
        }
        t = t + v[i].len;
        i = i + 1;
    }
    proof {
        assert(v@.take(i as int) =~= v@);
    }
    Some(t)
}

/// Whether `n` rounded up to a whole block of `bs` bytes is `total`.
fn aligned_len_matches(n: usize, total: usize, bs: usize) -> (r: bool)
    requires
        bs > 0,
    ensures
        r == (align_up(n as nat, bs as nat) == total),
{
    let q = n / bs;
    let rem = n % bs;
    if rem == 0 {
        n == total
    } else {
        let tq = total / bs;
        if q >= tq {
            proof {
                assert((q + 1) * bs > total) by (nonlinear_arith)
                    requires
                        q >= tq,
                        tq == total / bs,
                        bs > 0,
                ;
            }
            false
        } else {
            proof {
                assert((q + 1) * bs <= total) by (nonlinear_arith)
                    requires
                        q + 1 <= tq,
                        tq == total / bs,
                        bs > 0,
                ;
            }
            (q + 1) * bs == total
        }
    }
}

impl Cmd {
    /// Resolve the destination extents of `op` against an image of
    /// `partition_len` bytes, in order; the first extent without a range
    /// gives the error.
    pub fn extract_dst_extents(
        &self,
        op: &InstallOperation,
        partition_len: usize,
        block_size: usize,
    ) -> (r: Result<Vec<ByteRange>, ExtractError>)
        ensures
            match r {
                Ok(v) => resolve_all(op.dst_extents@, block_size as nat, partition_len as nat)
                    == Ok::<Seq<ByteRange>, ExtractError>(v@),
                Err(e) => resolve_all(op.dst_extents@, block_size as nat, partition_len as nat)
                    == Err::<Seq<ByteRange>, ExtractError>(e),
            },
    {
                let mut v: Vec<ByteRange> = Vec::new();
        let mut i: usize = 0;
        while i < op.dst_extents.len()
            invariant
                i <= op.dst_extents@.len(),
                resolve_all(op.dst_extents@.take(i as int), block_size as nat, partition_len as nat) == Ok::<
                    Seq<ByteRange>,
                    ExtractError,
                >(v@),
            decreases op.dst_extents@.len() - i,
        {
            proof {
                assert(op.dst_extents@.take(i + 1).drop_last() =~= op.dst_extents@.take(i as int));
            }
            match resolve_extent(&op.dst_extents[i], block_size, partition_len) {
                Err(e) => {
                    proof {
                        assert(op.dst_extents@.take(i + 1).last() == op.dst_extents@[i as int]);
                        assert(resolve_all(op.dst_extents@.take(i + 1), block_size as nat, partition_len as nat)
                            == Err::<Seq<ByteRange>, ExtractError>(e));
                        lemma_resolve_prefix_err(
                            op.dst_extents@,
                            block_size as nat,
                            partition_len as nat,
                            i + 1,
                        );
                    }
                    return Err(e);
                },
                Ok(x) => {
                    proof {
                        assert(op.dst_extents@.take(i + 1).last() == op.dst_extents@[i as int]);
                    }
                    v.push(x);
                },
            }
            i = i + 1;
        }
        proof {
            assert(op.dst_extents@.take(i as int) =~= op.dst_extents@);
        }
        Ok(v)
    }

    /// The source bytes of `op` inside the data blob.
    fn source_slice<'a>(&self, op: &InstallOperation, blob: &'a [u8]) -> (r: Result<&'a [u8], ExtractError>)
        ensures
            match r {
                Ok(s) => source_spec(*op, blob@.len()) matches Ok((o, l)) && s@ == blob@.subrange(
                    o as int,
                    (o + l) as int,
                ),
                Err(e) => source_spec(*op, blob@.len()) == Err::<(nat, nat), ExtractError>(e),
            },
    {
        let l = match op.data_length {
            None => return Err(ExtractError::MalformedManifest(ManifestField::DataLength)),
            Some(l) => l,
        };
        let o = match op.data_offset {
            None => return Err(ExtractError::MalformedManifest(ManifestField::DataOffset)),
            Some(o) => o,
        };
        let n = blob.len();
        if o as u128 > n as u128 || l as u128 > n as u128 - o as u128 {
            return Err(ExtractError::SourceRangeOutOfBounds);
        }
        Ok(vstd::slice::slice_subrange(blob, o as usize, (o + l) as usize))
    }

    /// Execute one operation on the image `out` of its partition, with the
    /// payload's data blob `blob`.
    pub fn run_op(
        &self,
        op: &InstallOperation,
        blob: &[u8],
        out: &mut [u8],
        block_size: usize,
    ) -> (r: Result<(), ExtractError>)
        requires
            block_size > 0,
        ensures
            run_op_post(
                self.skip_hash_check,
                *op,
                blob@,
                old(out)@,
                final(out)@,
                block_size as nat,
                r,
            ),
    {
        let kind = op_kind(op.op_type);
        let plen = out.len();
        if let OpKind::Zero = kind {
            return match self.extract_dst_extents(op, plen, block_size) {
                Err(e) => Err(e),
                Ok(_) => Ok(()),
            };
        }
        let data = match self.source_slice(op, blob) {
            Err(e) => return Err(e),
            Ok(d) => d,
        };
        if !self.skip_hash_check {
            if let Some(hash) = &op.data_sha256_hash {
                if let Err(e) = verify_sha256(data, hash.as_slice()) {
                    return Err(e);
                }
            }
        }
        let dst = match self.extract_dst_extents(op, plen, block_size) {
            Err(e) => return Err(e),
            Ok(v) => v,
        };
        match kind {
            OpKind::Invalid => {
                return Err(ExtractError::InvalidOperation(op.op_type));
            },
            OpKind::Unsupported => {
                return Err(ExtractError::UnimplementedOperation(op.op_type));
            },
            _ => {},
        }
        proof {
            lemma_resolve_within(op.dst_extents@, block_size as nat, plen as nat);
        }
        let total = match total_len(&dst) {
            None => return Err(ExtractError::ExtentOutOfBounds),
            Some(t) => t,
        };
        match kind {
            OpKind::Replace => self.run_op_replace(data, out, &dst, block_size),
            OpKind::ReplaceBz => match bz_decompress(data, total as u64 + 1) {
                None => Err(ExtractError::DecompressFailed),
                Some(stream) => self.run_op_replace(stream.as_slice(), out, &dst, block_size),
            },
            _ => match xz_decompress(data, total as u64 + 1) {
                None => Err(ExtractError::DecompressFailed),
                Some(stream) => self.run_op_replace(stream.as_slice(), out, &dst, block_size),
            },
        }
    }

    /// Copy as many stream bytes from offset `pos` on as fit into range `e`
    /// of `out`, stopping early where the stream ends; returns the count.
    pub fn read_exact_best_effort(
        &self,
        src: &[u8],
        pos: usize,
        out: &mut [u8],
        e: ByteRange,
    ) -> (n: usize)
        requires
            pos <= src@.len(),
            e.within(old(out)@.len() as int),
        ensures
            n == if e.len + pos <= src@.len() { e.len as int } else { src@.len() - pos },
            final(out)@ == write_range(old(out)@, e, src@, pos as int),
    {
        let out_len = out.len();
        let mut n: usize = 0;
        while n < e.len && n < src.len() - pos
            invariant
                n <= e.len,
                pos + n <= src@.len(),
                pos <= src@.len(),
                e.within(old(out)@.len() as int),
                e.start + e.len <= out@.len() == out_len,
                out@.len() == old(out)@.len(),
                forall|p: int|
                    0 <= p < out@.len() ==> #[trigger] out@[p] == if e.start <= p < e.start + n {
                        src@[pos + (p - e.start)]
                    } else {
                        old(out)@[p]
                    },
            decreases e.len - n,
        {
            out[e.start + n] = src[pos + n];
            n = n + 1;
        }
        assert(out@ =~= write_range(old(out)@, e, src@, pos as int));
        n
    }

    /// Write the stream `src` into the ranges `dst_extents` of `out`, in
    /// order: every range but the last is filled, the last as far as the
    /// stream reaches. Fails, leaving `out` as it was, where the stream is
    /// too long, or too short even when padded to a whole block.
    pub fn run_op_replace(
        &self,
        src: &[u8],
        out: &mut [u8],
        dst_extents: &Vec<ByteRange>,
        block_size: usize,
    ) -> (r: Result<(), ExtractError>)
        requires
            block_size > 0,
            all_within(dst_extents@, old(out)@.len() as int),
            range_total(dst_extents@) <= usize::MAX,
        ensures
            match r {
                Ok(()) => stream_error(src@.len(), dst_extents@, block_size as nat) is None
                    && final(out)@ == scatter(old(out)@, dst_extents@, src@),
                Err(e) => stream_error(src@.len(), dst_extents@, block_size as nat) == Some(e)
                    && final(out)@ == old(out)@,
            },
    {
        let n = dst_extents.len();
        let mut total: usize = 0;
        let mut i: usize = 0;
        while i < n
            invariant
                i <= n,
                n == dst_extents@.len(),
                total == range_total(dst_extents@.take(i as int)),
                range_total(dst_extents@) <= usize::MAX,
            decreases n - i,
        {
            proof {
                lemma_prefix_step(out@, dst_extents@, src@, i as int);
                lemma_total_prefix(dst_extents@, i + 1);
            }
            total = total + dst_extents[i].len;
            i = i + 1;
        }
        proof {
            assert(dst_extents@.take(n as int) =~= dst_extents@);
            if n > 0 {
                assert(dst_extents@.drop_last() =~= dst_extents@.take(n - 1));
            }
        }
        let last: usize = if n == 0 {
            0
        } else {
            dst_extents[n - 1].len
        };
        let head = total - last;
        if src.len() < head {
            return Err(ExtractError::InsufficientSourceData);
        }
        if src.len() > total {
            return Err(ExtractError::ExcessSourceData);
        }
        if !aligned_len_matches(src.len(), total, block_size) {
            return Err(ExtractError::InsufficientSourceData);
        }
        let slen = src.len();
        let mut pos: usize = 0;
        let mut i: usize = 0;
        while i < n
            invariant
                i <= n,
                n == dst_extents@.len(),
                n > 0 ==> head == range_total(dst_extents@.take(n - 1)),
                head <= src@.len(),
                pos <= src@.len() == slen,
                i < n ==> pos == range_total(dst_extents@.take(i as int)),
                out@.len() == old(out)@.len(),
                all_within(dst_extents@, old(out)@.len() as int),
                out@ == scatter(old(out)@, dst_extents@.take(i as int), src@),
            decreases n - i,
        {
            proof {
                lemma_prefix_step(old(out)@, dst_extents@, src@, i as int);
                assert(dst_extents@.take(n - 1).take(i as int) =~= dst_extents@.take(i as int));
                lemma_total_prefix(dst_extents@.take(n - 1), i as int);
                if i + 1 < n {
                    assert(dst_extents@.take(n - 1).take(i + 1) =~= dst_extents@.take(i + 1));
                    lemma_total_prefix(dst_extents@.take(n - 1), i + 1);
                }
                assert(dst_extents@[i as int].within(old(out)@.len() as int));
            }
            let got = self.read_exact_best_effort(src, pos, out, dst_extents[i]);
            pos = pos + got;
            i = i + 1;
        }
        proof {
            assert(dst_extents@.take(n as int) =~= dst_extents@);
        }
        Ok(())
    }
}

} // verus!
