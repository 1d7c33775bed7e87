//! The model of the literal-stream write: destination extents as byte
//! ranges of a partition image, and what writing a stream into them does.

use vstd::prelude::*;
use crate::error::ExtractError;
use vstd::arithmetic::div_mod::lemma_fundamental_div_mod_converse;

verus! {

/// An absolute byte range `[start, start + len)` of a partition image.
#[derive(Clone, Copy, Debug, PartialEq, Eq, Structural)]
pub struct ByteRange {
    pub start: usize,
    pub len: usize,
}

impl ByteRange {
    pub open spec fn end(self) -> int {
        self.start + self.len
    }

    pub open spec fn contains(self, p: int) -> bool {
        self.start <= p < self.end()
    }

    pub open spec fn within(self, n: int) -> bool {
        self.end() <= n
    }
}

/// Total length of a list of ranges.
pub open spec fn range_total(r: Seq<ByteRange>) -> nat
    decreases r.len(),
{
    if r.len() == 0 {
        0
    } else {
        range_total(r.drop_last()) + r.last().len as nat
    }
}

/// Length of the last range, zero for an empty list.
pub open spec fn last_len(r: Seq<ByteRange>) -> nat {
    if r.len() == 0 {
        0
    } else {
        r.last().len as nat
    }
}

/// Every range lies inside an image of `n` bytes.
pub open spec fn all_within(r: Seq<ByteRange>, n: int) -> bool {
    forall|i: int| 0 <= i < r.len() ==> #[trigger] r[i].within(n)
}

/// No byte belongs to two ranges of the list.
pub open spec fn pairwise_disjoint(r: Seq<ByteRange>) -> bool {
    forall|i: int, j: int, p: int|
        0 <= i < r.len() && 0 <= j < r.len() && i != j && #[trigger] r[i].contains(p)
            ==> !#[trigger] r[j].contains(p)
}

/// Byte `p` lies in some range of the list.
pub open spec fn covered(r: Seq<ByteRange>, p: int) -> bool {
    exists|i: int| 0 <= i < r.len() && #[trigger] r[i].contains(p)
}

/// `b` with range `e` overwritten by the stream bytes from offset `o` on,
/// as far as the stream reaches.
pub open spec fn write_range(b: Seq<u8>, e: ByteRange, s: Seq<u8>, o: int) -> Seq<u8> {
    Seq::new(
        b.len(),
        |p: int|
            if e.contains(p) && o + (p - e.start) < s.len() {
                s[o + (p - e.start)]
            } else {
                b[p]
            },
    )
}

/// The image after the stream `s` has been written into the ranges `r`, in
/// their order, each range taking the stream bytes that follow the previous.
pub open spec fn scatter(b: Seq<u8>, r: Seq<ByteRange>, s: Seq<u8>) -> Seq<u8>
    decreases r.len(),
{
    if r.len() == 0 {
        b
    } else {
        write_range(scatter(b, r.drop_last(), s), r.last(), s, range_total(r.drop_last()) as int)
    }
}

/// The contents of the ranges `r` of `b`, concatenated in order.
pub open spec fn gather(b: Seq<u8>, r: Seq<ByteRange>) -> Seq<u8>
    decreases r.len(),
{
    if r.len() == 0 {
        seq![]
    } else {
        gather(b, r.drop_last()) + b.subrange(r.last().start as int, r.last().end())
    }
}

/// `n` rounded up to a whole number of blocks of `bs` bytes.
pub open spec fn align_up(n: nat, bs: nat) -> nat {
    if n % bs == 0 {
        n
    } else {
        (n / bs + 1) * bs
    }
}

/// Which error, if any, writing a stream of `slen` bytes into the ranges `r`
/// with blocks of `bs` bytes ends in: all ranges but the last must be filled,
/// no byte may be left over, and the bytes read, rounded up to a block, must
/// equal the total length of the ranges.
pub open spec fn stream_error(slen: nat, r: Seq<ByteRange>, bs: nat) -> Option<ExtractError> {
    let total = range_total(r);
    if slen + last_len(r) < total {
        Some(ExtractError::InsufficientSourceData)
    } else if slen > total {
        Some(ExtractError::ExcessSourceData)
    } else if align_up(slen, bs) != total {
        Some(ExtractError::InsufficientSourceData)
    } else {
        None
    }
}

/// The total of a prefix never exceeds the total of the whole list.
pub proof fn lemma_total_prefix(r: Seq<ByteRange>, i: int)
    requires
        0 <= i <= r.len(),
    ensures
        range_total(r.take(i)) <= range_total(r),
    decreases r.len(),
{
    if i < r.len() {
        lemma_total_prefix(r.drop_last(), i);
        assert(r.drop_last().take(i) =~= r.take(i));
    } else {
        assert(r.take(i) =~= r);
    }
}

/// Extending a prefix by one range adds that range's length, and writes
/// that range after the ones before it.
pub proof fn lemma_prefix_step(b: Seq<u8>, r: Seq<ByteRange>, s: Seq<u8>, i: int)
    requires
        0 <= i < r.len(),
    ensures
        range_total(r.take(i + 1)) == range_total(r.take(i)) + r[i].len,
        scatter(b, r.take(i + 1), s) == write_range(
            scatter(b, r.take(i), s),
            r[i],
            s,
            range_total(r.take(i)) as int,
        ),
{
    assert(r.take(i + 1).drop_last() =~= r.take(i));
}

/// Alignment boundary: where blocks are longer than one byte, the ranges
/// total `L`, a whole number of blocks, and the last range is not empty, a
/// stream of exactly `L` bytes is accepted, so is one of `L - 1` bytes (its
/// last block is padded), one of `L + 1` bytes is rejected as excess, and
/// every shorter stream that does not round up to `L` is rejected as
/// insufficient.
pub proof fn lemma_alignment_boundary(r: Seq<ByteRange>, bs: nat)
    requires
        bs > 1,
        range_total(r) % bs == 0,
        last_len(r) > 0,
    ensures
        stream_error(range_total(r), r, bs) is None,
        stream_error((range_total(r) - 1) as nat, r, bs) is None,
        stream_error(range_total(r) + 1, r, bs) == Some(ExtractError::ExcessSourceData),
        forall|n: nat|
            n < range_total(r) && align_up(n, bs) != range_total(r) ==> stream_error(n, r, bs)
                == Some(ExtractError::InsufficientSourceData),
{
    let l = range_total(r);
    assert(l >= last_len(r));
    let q = l / bs;
    assert(l == q * bs) by {
        vstd::arithmetic::div_mod::lemma_fundamental_div_mod(l as int, bs as int);
    }
    assert(q >= 1) by (nonlinear_arith)
        requires
            l == q * bs,
            l > 0,
            bs > 1,
    ;
    assert((l - 1) as int == (q - 1) * bs + (bs - 1)) by (nonlinear_arith)
        requires
            l == q * bs,
    ;
    lemma_fundamental_div_mod_converse((l - 1) as int, bs as int, q - 1, bs - 1);
    assert(align_up((l - 1) as nat, bs) == l) by (nonlinear_arith)
        requires
            l == q * bs,
            ((l - 1) as nat) / bs == q - 1,
            ((l - 1) as nat) % bs == bs - 1,
            bs > 1,
            align_up((l - 1) as nat, bs) == (((l - 1) as nat) / bs + 1) * bs,
    ;
}

/// Writing a stream keeps the length of the image.
pub proof fn lemma_scatter_len(b: Seq<u8>, r: Seq<ByteRange>, s: Seq<u8>)
    ensures
        scatter(b, r, s).len() == b.len(),
    decreases r.len(),
{
    if r.len() > 0 {
        lemma_scatter_len(b, r.drop_last(), s);
    }
}

/// A byte outside every range is left as it was.
pub proof fn lemma_scatter_outside(b: Seq<u8>, r: Seq<ByteRange>, s: Seq<u8>, p: int)
    requires
        0 <= p < b.len(),
        !covered(r, p),
    ensures
        scatter(b, r, s)[p] == b[p],
    decreases r.len(),
{
    if r.len() > 0 {
        let r0 = r.drop_last();
        assert(!covered(r0, p)) by {
            if covered(r0, p) {
                let i = choose|i: int| 0 <= i < r0.len() && #[trigger] r0[i].contains(p);
                assert(r[i].contains(p));
            }
        }
        assert(!r[r.len() - 1].contains(p));
        lemma_scatter_outside(b, r0, s, p);
        lemma_scatter_len(b, r0, s);
    }
}

/// What a write leaves at a byte depends on that byte alone, not on the rest
/// of the image.
pub proof fn lemma_scatter_pointwise(b1: Seq<u8>, b2: Seq<u8>, r: Seq<ByteRange>, s: Seq<u8>, p: int)
    requires
        b1.len() == b2.len(),
        0 <= p < b1.len(),
        b1[p] == b2[p],
    ensures
        scatter(b1, r, s)[p] == scatter(b2, r, s)[p],
    decreases r.len(),
{
    if r.len() > 0 {
        lemma_scatter_pointwise(b1, b2, r.drop_last(), s, p);
        lemma_scatter_len(b1, r.drop_last(), s);
        lemma_scatter_len(b2, r.drop_last(), s);
    }
}

/// Two images that agree on every byte of the ranges give the same contents.
pub proof fn lemma_gather_agree(b1: Seq<u8>, b2: Seq<u8>, r: Seq<ByteRange>)
    requires
        b1.len() == b2.len(),
        all_within(r, b1.len() as int),
        forall|p: int| 0 <= p < b1.len() && covered(r, p) ==> b1[p] == b2[p],
    ensures
        gather(b1, r) == gather(b2, r),
    decreases r.len(),
{
    if r.len() > 0 {
        let r0 = r.drop_last();
        let e = r.last();
        assert forall|p: int| 0 <= p < b1.len() && covered(r0, p) implies b1[p] == b2[p] by {
            let i = choose|i: int| 0 <= i < r0.len() && #[trigger] r0[i].contains(p);
            assert(r[i].contains(p));
        }
        lemma_gather_agree(b1, b2, r0);
        assert(r[r.len() - 1].within(b1.len() as int));
        assert forall|p: int| e.start <= p < e.end() implies b1[p] == b2[p] by {
            assert(r[r.len() - 1].contains(p));
        }
        assert(b1.subrange(e.start as int, e.end()) =~= b2.subrange(e.start as int, e.end()));
    }
}

/// With pairwise disjoint ranges, byte `j` of range `k` ends up holding
/// stream byte `range_total(r.take(k)) + j` where the stream reaches that
/// far, and keeps its old value where it does not.
pub proof fn lemma_scatter_at(b: Seq<u8>, r: Seq<ByteRange>, s: Seq<u8>, k: int, j: int)
    requires
        pairwise_disjoint(r),
        all_within(r, b.len() as int),
        0 <= k < r.len(),
        0 <= j < r[k].len,
    ensures
        scatter(b, r, s)[r[k].start + j] == if range_total(r.take(k)) + j < s.len() {
            s[range_total(r.take(k)) + j]
        } else {
            b[r[k].start + j]
        },
    decreases r.len(),
{
    let n = r.len() - 1;
    let r0 = r.drop_last();
    let p = r[k].start + j;
    assert(r[k].within(b.len() as int));
    assert(r[k].contains(p));
    lemma_scatter_len(b, r0, s);
    if k == n {
        assert(r.take(k) =~= r0);
        assert(!covered(r0, p)) by {
            if covered(r0, p) {
                let i = choose|i: int| 0 <= i < r0.len() && #[trigger] r0[i].contains(p);
                assert(r[i].contains(p));
            }
        }
        lemma_scatter_outside(b, r0, s, p);
    } else {
        assert(!r[n].contains(p));
        assert(pairwise_disjoint(r0)) by {
            assert forall|i: int, i2: int, q: int|
                0 <= i < r0.len() && 0 <= i2 < r0.len() && i != i2 && #[trigger] r0[i].contains(q)
                    implies !#[trigger] r0[i2].contains(q) by {
                assert(r[i].contains(q));
            }
        }
        assert(all_within(r0, b.len() as int)) by {
            assert forall|i: int| 0 <= i < r0.len() implies #[trigger] r0[i].within(b.len() as int) by {
                assert(r[i].within(b.len() as int));
            }
        }
        assert(r0.take(k) =~= r.take(k));
        assert(r0[k] == r[k]);
        lemma_scatter_at(b, r0, s, k, j);
    }
}

/// Padding: where the ranges total `L` and the stream holds `L - 1` bytes,
/// every byte of the ranges but the last holds its stream byte, and the
/// last byte of the last range, the padding, keeps its old value.
pub proof fn lemma_padded_stream_bytes(b: Seq<u8>, r: Seq<ByteRange>, s: Seq<u8>)
    requires
        pairwise_disjoint(r),
        all_within(r, b.len() as int),
        r.len() > 0,
        r.last().len > 0,
        s.len() + 1 == range_total(r),
    ensures
        scatter(b, r, s)[r.last().end() - 1] == b[r.last().end() - 1],
        forall|k: int, j: int|
            0 <= k < r.len() && 0 <= j < r[k].len && range_total(r.take(k)) + j < s.len()
                ==> #[trigger] scatter(b, r, s)[r[k].start + j] == s[range_total(r.take(k)) + j],
{
    let n = r.len() - 1;
    assert(r.take(n) =~= r.drop_last());
    lemma_scatter_at(b, r, s, n, r[n].len - 1);
    assert forall|k: int, j: int|
        0 <= k < r.len() && 0 <= j < r[k].len && range_total(r.take(k)) + j < s.len()
            implies #[trigger] scatter(b, r, s)[r[k].start + j] == s[range_total(r.take(k)) + j] by {
        lemma_scatter_at(b, r, s, k, j);
    }
}

/// Round trip: writing a stream as long as the ranges into pairwise disjoint
/// ranges, then reading the ranges back in order, gives the stream's first
/// bytes; for a stream of exactly the ranges' total length, the stream itself.
pub proof fn lemma_replace_round_trip(b: Seq<u8>, r: Seq<ByteRange>, s: Seq<u8>)
    requires
        pairwise_disjoint(r),
        all_within(r, b.len() as int),
        s.len() >= range_total(r),
    ensures
        gather(scatter(b, r, s), r) == s.take(range_total(r) as int),
    decreases r.len(),
{
    if r.len() == 0 {
        assert(s.take(0) =~= seq![]);
    } else {
        let r0 = r.drop_last();
        let e = r.last();
        let n = r.len() - 1;
        let t0 = range_total(r0);
        let mid = scatter(b, r0, s);
        let x = scatter(b, r, s);
        lemma_scatter_len(b, r0, s);
        assert(pairwise_disjoint(r0)) by {
            assert forall|i: int, j: int, p: int|
                0 <= i < r0.len() && 0 <= j < r0.len() && i != j && #[trigger] r0[i].contains(p)
                    implies !#[trigger] r0[j].contains(p) by {
                assert(r[i].contains(p));
            }
        }
        assert(all_within(r0, b.len() as int)) by {
            assert forall|i: int| 0 <= i < r0.len() implies #[trigger] r0[i].within(b.len() as int) by {
                assert(r[i].within(b.len() as int));
            }
        }
        lemma_replace_round_trip(b, r0, s);
        assert forall|p: int| 0 <= p < x.len() && covered(r0, p) implies x[p] == mid[p] by {
            let i = choose|i: int| 0 <= i < r0.len() && #[trigger] r0[i].contains(p);
            assert(r[i].contains(p));
            assert(!r[n].contains(p));
        }
        lemma_gather_agree(x, mid, r0);
        assert(r[n].within(b.len() as int));
        assert(x.subrange(e.start as int, e.end()) =~= s.subrange(t0 as int, range_total(r) as int));
        assert(s.take(t0 as int) + s.subrange(t0 as int, range_total(r) as int) =~= s.take(
            range_total(r) as int,
        ));
    }
}

/// Two writes whose ranges share no byte commute: the image does not depend
/// on which of them runs first, so operations on disjoint ranges may run in
/// any order, or at once.
pub proof fn lemma_disjoint_writes_commute(
    b: Seq<u8>,
    ra: Seq<ByteRange>,
    sa: Seq<u8>,
    rb: Seq<ByteRange>,
    sb: Seq<u8>,
)
    requires
        forall|p: int| covered(ra, p) ==> !covered(rb, p),
    ensures
        scatter(scatter(b, ra, sa), rb, sb) == scatter(scatter(b, rb, sb), ra, sa),
{
    let ab = scatter(scatter(b, ra, sa), rb, sb);
    let ba = scatter(scatter(b, rb, sb), ra, sa);
    lemma_scatter_len(b, ra, sa);
    lemma_scatter_len(b, rb, sb);
    lemma_scatter_len(scatter(b, ra, sa), rb, sb);
    lemma_scatter_len(scatter(b, rb, sb), ra, sa);
    assert forall|p: int| 0 <= p < ab.len() implies ab[p] == ba[p] by {
        if !covered(ra, p) {
            lemma_scatter_outside(b, ra, sa, p);
            lemma_scatter_pointwise(scatter(b, ra, sa), b, rb, sb, p);
            lemma_scatter_outside(scatter(b, rb, sb), ra, sa, p);
        } else {
            lemma_scatter_outside(b, rb, sb, p);
            lemma_scatter_pointwise(scatter(b, rb, sb), b, ra, sa, p);
            lemma_scatter_outside(scatter(b, ra, sa), rb, sb, p);
        }
    }
    assert(ab =~= ba);
}

/// The image after each write `(ranges, stream)` of `ops` has run, in order.
pub open spec fn apply_writes(b: Seq<u8>, ops: Seq<(Seq<ByteRange>, Seq<u8>)>) -> Seq<u8>
    decreases ops.len(),
{
    if ops.len() == 0 {
        b
    } else {
        scatter(apply_writes(b, ops.drop_last()), ops.last().0, ops.last().1)
    }
}

/// No byte lies in the ranges of two different writes of the list.
pub open spec fn writes_disjoint(ops: Seq<(Seq<ByteRange>, Seq<u8>)>) -> bool {
    forall|i: int, j: int, p: int|
        0 <= i < ops.len() && 0 <= j < ops.len() && i != j && #[trigger] covered(ops[i].0, p)
            ==> !#[trigger] covered(ops[j].0, p)
}

/// Writes keep the length of the image.
pub proof fn lemma_apply_writes_len(b: Seq<u8>, ops: Seq<(Seq<ByteRange>, Seq<u8>)>)
    ensures
        apply_writes(b, ops).len() == b.len(),
    decreases ops.len(),
{
    if ops.len() > 0 {
        lemma_apply_writes_len(b, ops.drop_last());
        lemma_scatter_len(apply_writes(b, ops.drop_last()), ops.last().0, ops.last().1);
    }
}

/// After disjoint writes, each byte holds what the one write that covers it
/// would leave there alone, and a byte that no write covers is unchanged.
pub proof fn lemma_writes_bytewise(b: Seq<u8>, ops: Seq<(Seq<ByteRange>, Seq<u8>)>, p: int)
    requires
        writes_disjoint(ops),
        0 <= p < b.len(),
    ensures
        apply_writes(b, ops).len() == b.len(),
        forall|i: int|
            0 <= i < ops.len() && #[trigger] covered(ops[i].0, p) ==> apply_writes(b, ops)[p]
                == scatter(b, ops[i].0, ops[i].1)[p],
        (forall|i: int| 0 <= i < ops.len() ==> !#[trigger] covered(ops[i].0, p)) ==> apply_writes(
            b,
            ops,
        )[p] == b[p],
    decreases ops.len(),
{
    if ops.len() > 0 {
        let n = ops.len() - 1;
        let init = ops.drop_last();
        let x = apply_writes(b, init);
        assert(writes_disjoint(init)) by {
            assert forall|i: int, j: int, q: int|
                0 <= i < init.len() && 0 <= j < init.len() && i != j && #[trigger] covered(init[i].0, q)
                    implies !#[trigger] covered(init[j].0, q) by {
                assert(ops[i] == init[i] && ops[j] == init[j]);
            }
        }
        lemma_writes_bytewise(b, init, p);
        lemma_scatter_len(x, ops[n].0, ops[n].1);
        if covered(ops[n].0, p) {
            assert forall|i: int| 0 <= i < init.len() implies !#[trigger] covered(init[i].0, p) by {
                assert(ops[i] == init[i]);
            }
            lemma_scatter_pointwise(x, b, ops[n].0, ops[n].1, p);
            assert forall|i: int|
                0 <= i < ops.len() && #[trigger] covered(ops[i].0, p) implies apply_writes(b, ops)[p]
                    == scatter(b, ops[i].0, ops[i].1)[p] by {
                if i != n {
                    assert(!covered(ops[n].0, p));
                }
            }
        } else {
            lemma_scatter_outside(x, ops[n].0, ops[n].1, p);
            assert forall|i: int|
                0 <= i < ops.len() && #[trigger] covered(ops[i].0, p) implies apply_writes(b, ops)[p]
                    == scatter(b, ops[i].0, ops[i].1)[p] by {
                assert(i != n);
                assert(ops[i] == init[i]);
            }
            if forall|i: int| 0 <= i < ops.len() ==> !#[trigger] covered(ops[i].0, p) {
                assert forall|i: int| 0 <= i < init.len() implies !#[trigger] covered(init[i].0, p) by {
                    assert(ops[i] == init[i]);
                }
            }
        }
    }
}

/// Order freedom: two lists holding the same disjoint writes, in whatever
/// order, leave the same image. Running the operations of a partition one
/// after another in any order, or all at once, gives one result.
pub proof fn lemma_writes_order_free(
    b: Seq<u8>,
    ops1: Seq<(Seq<ByteRange>, Seq<u8>)>,
    ops2: Seq<(Seq<ByteRange>, Seq<u8>)>,
)
    requires
        writes_disjoint(ops1),
        writes_disjoint(ops2),
        ops1.to_multiset() == ops2.to_multiset(),
    ensures
        apply_writes(b, ops1) == apply_writes(b, ops2),
{
    broadcast use vstd::seq_lib::to_multiset_contains;

    let a1 = apply_writes(b, ops1);
    let a2 = apply_writes(b, ops2);
    lemma_apply_writes_len(b, ops1);
    lemma_apply_writes_len(b, ops2);
    assert forall|p: int| 0 <= p < a1.len() implies a1[p] == a2[p] by {
        lemma_writes_bytewise(b, ops1, p);
        lemma_writes_bytewise(b, ops2, p);
        if exists|i: int| 0 <= i < ops1.len() && #[trigger] covered(ops1[i].0, p) {
            let i = choose|i: int| 0 <= i < ops1.len() && #[trigger] covered(ops1[i].0, p);
            assert(ops1.contains(ops1[i]));
            assert(ops1.to_multiset().count(ops1[i]) > 0);
            assert(ops2.contains(ops1[i]));
            let j = choose|j: int| 0 <= j < ops2.len() && ops2[j] == ops1[i];
            assert(covered(ops2[j].0, p));
        } else if exists|j: int| 0 <= j < ops2.len() && #[trigger] covered(ops2[j].0, p) {
            let j = choose|j: int| 0 <= j < ops2.len() && #[trigger] covered(ops2[j].0, p);
            assert(ops2.contains(ops2[j]));
            assert(ops2.to_multiset().count(ops2[j]) > 0);
            assert(ops1.contains(ops2[j]));
            let i = choose|i: int| 0 <= i < ops1.len() && ops1[i] == ops2[j];
            assert(covered(ops1[i].0, p));
        }
    }
    assert(a1 =~= a2);
}

} // verus!
