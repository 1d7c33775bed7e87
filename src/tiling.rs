//! The pre-flight check that a partition's destination ranges tile its
//! image exactly: no byte outside it, no byte written twice, no gap.

use vstd::prelude::*;
use crate::cmd::Cmd;
use crate::error::ExtractError;
use crate::extent::resolve_all;
use crate::manifest::{InstallOperation, PartitionUpdate};
use crate::stream::{ByteRange, all_within, covered, pairwise_disjoint};

verus! {

/// The ranges lie inside `[0, size)`, share no byte, and leave no byte of
/// it uncovered.
pub open spec fn tiles(r: Seq<ByteRange>, size: int) -> bool {
    &&& all_within(r, size)
    &&& pairwise_disjoint(r)
    &&& forall|p: int| 0 <= p < size ==> covered(r, p)
}

/// Some non-empty range of the list starts at `x`.
pub open spec fn starts_at(r: Seq<ByteRange>, x: int) -> bool {
    exists|j: int| 0 <= j < r.len() && (#[trigger] r[j]).len > 0 && r[j].start == x
}

/// Every non-empty range that ends inside the image is followed by a
/// non-empty range starting where it ends.
pub open spec fn chained(r: Seq<ByteRange>, size: int) -> bool {
    forall|i: int|
        0 <= i < r.len() && (#[trigger] r[i]).len > 0 && r[i].end() < size ==> starts_at(r, r[i].end())
}

/// A chain that starts at byte zero covers every byte before `size`.
proof fn lemma_chain_covers(r: Seq<ByteRange>, size: int, p: int)
    requires
        0 <= p < size,
        starts_at(r, 0),
        chained(r, size),
    ensures
        covered(r, p),
    decreases p,
{
    if p == 0 {
        let j = choose|j: int| 0 <= j < r.len() && (#[trigger] r[j]).len > 0 && r[j].start == 0;
        assert(r[j].contains(0));
    } else {
        lemma_chain_covers(r, size, p - 1);
        let i = choose|i: int| 0 <= i < r.len() && #[trigger] r[i].contains(p - 1);
        if !r[i].contains(p) {
            assert(r[i].len > 0);
            assert(starts_at(r, r[i].end()));
            let j = choose|j: int| 0 <= j < r.len() && (#[trigger] r[j]).len > 0 && r[j].start == r[i].end();
            assert(r[j].contains(p));
        }
    }
}

/// In a tiling, byte zero starts a range, and every range ending inside
/// the image is followed by one.
proof fn lemma_tiles_chained(r: Seq<ByteRange>, size: int)
    requires
        tiles(r, size),
    ensures
        size > 0 ==> starts_at(r, 0),
        chained(r, size),
{
    if size > 0 {
        assert(covered(r, 0));
        let j = choose|j: int| 0 <= j < r.len() && #[trigger] r[j].contains(0);
        assert(r[j].len > 0 && r[j].start == 0);
    }
    assert forall|i: int| 0 <= i < r.len() && (#[trigger] r[i]).len > 0 && r[i].end() < size
        implies starts_at(r, r[i].end()) by {
        let e = r[i].end();
        assert(covered(r, e));
        let j = choose|j: int| 0 <= j < r.len() && #[trigger] r[j].contains(e);
        assert(!r[i].contains(e));
        if r[j].start < e {
            assert(r[i].contains(e - 1));
            assert(r[j].contains(e - 1));
        }
        assert(r[j].len > 0 && r[j].start == e);
    }
}

/// Whether some non-empty range starts at `x`.
fn has_range_starting_at(r: &Vec<ByteRange>, x: usize) -> (b: bool)
    ensures
        b == starts_at(r@, x as int),
{
    let mut j: usize = 0;
    while j < r.len()
        invariant
            j <= r@.len(),
            forall|k: int| 0 <= k < j ==> !((#[trigger] r@[k]).len > 0 && r@[k].start == x),
        decreases r@.len() - j,
    {
        if r[j].len > 0 && r[j].start == x {
            return true;
        }
        j = j + 1;
    }
    false
}

/// Whether the ranges tile `[0, size)` exactly.
pub fn check_tiling(r: &Vec<ByteRange>, size: usize) -> (ok: bool)
    ensures
        ok == tiles(r@, size as int),
{
    let n = r.len();
    let mut i: usize = 0;
    while i < n
        invariant
            n == r@.len(),
            i <= n,
            forall|k: int| 0 <= k < i ==> (#[trigger] r@[k]).within(size as int),
        decreases n - i,
    {
        if r[i].start > size || r[i].len > size - r[i].start {
            proof {
                assert(!r@[i as int].within(size as int));
            }
            return false;
        }
        i = i + 1;
    }
    assert(all_within(r@, size as int));
    i = 0;
    while i < n
        invariant
            n == r@.len(),
            i <= n,
            all_within(r@, size as int),
            forall|a: int, b: int, p: int|
                0 <= a < i && 0 <= b < n && a != b && #[trigger] r@[a].contains(p)
                    ==> !#[trigger] r@[b].contains(p),
        decreases n - i,
    {
        let mut j: usize = 0;
        while j < n
            invariant
                n == r@.len(),
                i < n,
                j <= n,
                all_within(r@, size as int),
                forall|a: int, b: int, p: int|
                    0 <= a < i && 0 <= b < n && a != b && #[trigger] r@[a].contains(p)
                        ==> !#[trigger] r@[b].contains(p),
                forall|b: int, p: int|
                    0 <= b < j && b != i && #[trigger] r@[i as int].contains(p)
                        ==> !#[trigger] r@[b].contains(p),
            decreases n - j,
        {
            let a = r[i];
            let b = r[j];
            proof {
                assert(r@[i as int].within(size as int));
                assert(r@[j as int].within(size as int));
            }
            if j != i && a.len > 0 && b.len > 0 && a.start < b.start + b.len && b.start
                < a.start + a.len {
                proof {
                    let p: int = if a.start < b.start { b.start as int } else { a.start as int };
                    assert(r@[i as int].contains(p) && r@[j as int].contains(p));
                }
                return false;
            }
            j = j + 1;
        }
        i = i + 1;
    }
    assert(pairwise_disjoint(r@));
    if size > 0 && !has_range_starting_at(r, 0) {
        proof {
            if tiles(r@, size as int) {
                lemma_tiles_chained(r@, size as int);
            }
        }
        return false;
    }
    i = 0;
    while i < n
        invariant
            n == r@.len(),
            i <= n,
            all_within(r@, size as int),
            pairwise_disjoint(r@),
            size > 0 ==> starts_at(r@, 0),
            forall|k: int|
                0 <= k < i && (#[trigger] r@[k]).len > 0 && r@[k].end() < size
                    ==> starts_at(r@, r@[k].end()),
        decreases n - i,
    {
        let a = r[i];
        proof {
            assert(r@[i as int].within(size as int));
        }
        if a.len > 0 && a.start + a.len < size && !has_range_starting_at(r, a.start + a.len) {
            proof {
                if tiles(r@, size as int) {
                    lemma_tiles_chained(r@, size as int);
                    assert(r@[i as int].len > 0);
                }
            }
            return false;
        }
        i = i + 1;
    }
    proof {
        assert(chained(r@, size as int));
        assert forall|p: int| 0 <= p < size implies covered(r@, p) by {
            lemma_chain_covers(r@, size as int, p);
        }
    }
    true
}

/// The destination ranges of all the operations, in order, or the error of
/// the first extent that has none.
pub open spec fn partition_ranges(ops: Seq<InstallOperation>, bs: nat, plen: nat) -> Result<
    Seq<ByteRange>,
    ExtractError,
>
    decreases ops.len(),
{
    if ops.len() == 0 {
        Ok(seq![])
    } else {
        match partition_ranges(ops.drop_last(), bs, plen) {
            Err(e) => Err(e),
            Ok(v) => match resolve_all(ops.last().dst_extents@, bs, plen) {
                Err(e) => Err(e),
                Ok(w) => Ok(v + w),
            },
        }
    }
}

/// An error among the first operations is the error of the whole list.
proof fn lemma_ranges_prefix_err(ops: Seq<InstallOperation>, bs: nat, plen: nat, i: int)
    requires
        0 <= i <= ops.len(),
        partition_ranges(ops.take(i), bs, plen) is Err,
    ensures
        partition_ranges(ops, bs, plen) == partition_ranges(ops.take(i), bs, plen),
    decreases ops.len(),
{
    if i < ops.len() {
        assert(ops.drop_last().take(i) =~= ops.take(i));
        lemma_ranges_prefix_err(ops.drop_last(), bs, plen, i);
    } else {
        assert(ops.take(i) =~= ops);
    }
}

impl Cmd {
    /// Pre-flight check of a partition whose image is `plen` bytes: every
    /// destination extent of every operation resolves, and together they
    /// tile the image exactly, so that operations may write it at once
    /// without touching each other's bytes.
    pub fn check_partition_extents(&self, update: &PartitionUpdate, plen: usize, block_size: usize) -> (r:
        Result<(), ExtractError>)
        ensures
            match partition_ranges(update.operations@, block_size as nat, plen as nat) {
                Err(e) => r == Err::<(), ExtractError>(e),
                Ok(v) => if tiles(v, plen as int) {
                    r is Ok
                } else {
                    r == Err::<(), ExtractError>(ExtractError::ExtentsDoNotTile)
                },
            },
    {
        let mut flat: Vec<ByteRange> = Vec::new();
        let mut i: usize = 0;
        while i < update.operations.len()
            invariant
                i <= update.operations@.len(),
                partition_ranges(update.operations@.take(i as int), block_size as nat, plen as nat)
                    == Ok::<Seq<ByteRange>, ExtractError>(flat@),
            decreases update.operations@.len() - i,
        {
            proof {
                assert(update.operations@.take(i + 1).drop_last() =~= update.operations@.take(i as int));
                assert(update.operations@.take(i + 1).last() == update.operations@[i as int]);
            }
            match self.extract_dst_extents(&update.operations[i], plen, block_size) {
                Err(e) => {
                    proof {
                        lemma_ranges_prefix_err(
                            update.operations@,
                            block_size as nat,
                            plen as nat,
                            i + 1,
                        );
                    }
                    return Err(e);
                },
                Ok(w) => {
                    let ghost f0 = flat@;
                    let mut k: usize = 0;
                    while k < w.len()
                        invariant
                            k <= w@.len(),
                            flat@ == f0 + w@.take(k as int),
                        decreases w@.len() - k,
                    {
                        flat.push(w[k]);
                        k = k + 1;
                        assert(flat@ =~= f0 + w@.take(k as int));
                    }
                    assert(w@.take(k as int) =~= w@);
                },
            }
            i = i + 1;
        }
        proof {
            assert(update.operations@.take(i as int) =~= update.operations@);
        }
        if check_tiling(&flat, plen) {
            Ok(())
        } else {
            Err(ExtractError::ExtentsDoNotTile)
        }
    }
}

} // verus!
