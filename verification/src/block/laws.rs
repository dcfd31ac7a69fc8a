use vstd::prelude::*;
use crate::error::Error;
use super::{read_blocks_spec, read_range, sector_at, write_blocks_spec, write_range, SectorState};

verus! {

/// The sector size goes into the block size: it is 128, 256 or 512.
pub open spec fn block_aligned(size: int) -> bool {
    size == 128 || size == 256 || size == 512
}

/// The sectors `lo..lo + n` hold `data`, one sector after the other.
pub open spec fn holds(contents: Seq<SectorState>, size: int, lo: int, n: int, data: Seq<u8>) -> bool {
    &&& 0 <= lo
    &&& lo + n <= contents.len()
    &&& forall|i: int|
        lo <= i < lo + n ==> #[trigger] contents[i] == Ok::<Seq<u8>, Error>(
            data.subrange((i - lo) * size, (i - lo + 1) * size),
        )
}

/// The sectors outside `lo..lo + n` are the same in both.
pub open spec fn same_outside(a: Seq<SectorState>, b: Seq<SectorState>, lo: int, n: int) -> bool {
    &&& a.len() == b.len()
    &&& forall|i: int| 0 <= i < a.len() && !(lo <= i < lo + n) ==> #[trigger] a[i] == b[i]
}

/// Sectors that were written hold what was written, and no other sector
/// has changed.
pub proof fn lemma_write_range_holds(contents: Seq<SectorState>, size: int, lo: int, n: int, data: Seq<u8>)
    requires
        size > 0,
        0 <= n,
        n * size <= data.len(),
        write_range(contents, size, lo, n, data).0 is Ok,
    ensures
        n > 0 ==> holds(write_range(contents, size, lo, n, data).1, size, lo, n, data),
        same_outside(write_range(contents, size, lo, n, data).1, contents, lo, n),
    decreases n,
{
    if n > 0 {
        assert((n - 1) * size + size == n * size) by (nonlinear_arith);
        assert(0 <= (n - 1) * size) by (nonlinear_arith)
            requires n >= 1, size > 0;
        let before = write_range(contents, size, lo, n - 1, data);
        lemma_write_range_holds(contents, size, lo, n - 1, data);
        let after = write_range(contents, size, lo, n, data).1;
        let piece = data.subrange((n - 1) * size, n * size);
        assert(after == before.1.update(lo + n - 1, Ok(piece)));
        assert(0 <= lo + n - 1 < before.1.len());
        assert forall|i: int| lo <= i < lo + n implies #[trigger] after[i] == Ok::<Seq<u8>, Error>(
            data.subrange((i - lo) * size, (i - lo + 1) * size),
        ) by {
            if i < lo + n - 1 {
                assert(before.1[i] == Ok::<Seq<u8>, Error>(data.subrange((i - lo) * size, (i - lo + 1) * size)));
            }
        }
        assert forall|i: int| 0 <= i < after.len() && !(lo <= i < lo + n) implies #[trigger] after[i] == contents[i] by {
            assert(before.1[i] == contents[i]);
        }
    }
}

/// Reading sectors that hold `data` gives `data`.
pub proof fn lemma_read_range_holds(contents: Seq<SectorState>, size: int, lo: int, n: int, data: Seq<u8>)
    requires
        size > 0,
        0 <= n,
        n * size <= data.len(),
        n > 0 ==> holds(contents, size, lo, n, data),
    ensures
        read_range(contents, lo, lo + n) == Ok::<Seq<u8>, Error>(data.subrange(0, n * size)),
    decreases n,
{
    if n > 0 {
        assert((n - 1) * size + size == n * size) by (nonlinear_arith);
        assert(0 <= (n - 1) * size) by (nonlinear_arith)
            requires n >= 1, size > 0;
        if n > 1 {
            assert(holds(contents, size, lo, n - 1, data)) by {
                assert forall|i: int| lo <= i < lo + n - 1 implies #[trigger] contents[i] == Ok::<Seq<u8>, Error>(
                    data.subrange((i - lo) * size, (i - lo + 1) * size),
                ) by {}
            }
        }
        lemma_read_range_holds(contents, size, lo, n - 1, data);
        assert(contents[lo + n - 1] == Ok::<Seq<u8>, Error>(data.subrange((n - 1) * size, n * size)));
        assert(data.subrange(0, (n - 1) * size) + data.subrange((n - 1) * size, n * size) =~= data.subrange(
            0,
            n * size,
        ));
    } else {
        assert(data.subrange(0, 0) =~= Seq::<u8>::empty());
        assert(n * size == 0) by (nonlinear_arith)
            requires n == 0;
    }
}

/// Reading gives the same where the sectors read are the same.
pub proof fn lemma_read_range_same(a: Seq<SectorState>, b: Seq<SectorState>, lo: int, hi: int)
    requires
        a.len() == b.len(),
        forall|i: int| lo <= i < hi && 0 <= i < a.len() ==> #[trigger] a[i] == b[i],
    ensures
        read_range(a, lo, hi) == read_range(b, lo, hi),
    decreases hi - lo,
{
    if lo < hi {
        lemma_read_range_same(a, b, lo, hi - 1);
        if 0 <= hi - 1 < a.len() {
            assert(a[hi - 1] == b[hi - 1]);
        }
    }
}

/// Reading two stretches of sectors that follow each other gives what
/// reading them as one gives.
pub proof fn lemma_read_range_join(contents: Seq<SectorState>, lo: int, mid: int, hi: int)
    requires
        lo <= mid <= hi,
        read_range(contents, lo, mid) is Ok,
        read_range(contents, mid, hi) is Ok,
    ensures
        read_range(contents, lo, hi) == Ok::<Seq<u8>, Error>(
            read_range(contents, lo, mid).unwrap() + read_range(contents, mid, hi).unwrap(),
        ),
    decreases hi - mid,
{
    if mid < hi {
        lemma_read_range_join(contents, lo, mid, hi - 1);
        let a = read_range(contents, lo, mid).unwrap();
        let b = read_range(contents, mid, hi - 1).unwrap();
        let c = sector_at(contents, hi - 1).unwrap();
        assert((a + b) + c =~= a + (b + c));
    } else {
        assert(read_range(contents, lo, mid).unwrap() + Seq::<u8>::empty() =~= read_range(contents, lo, mid).unwrap());
    }
}

/// Sectors in a block.
pub open spec fn per_block(size: int) -> int {
    512int / size
}

pub proof fn lemma_block_span(size: int, block: int, count: int)
    requires
        block_aligned(size),
        0 <= block,
        0 <= count,
    ensures
        block * 512 / size == block * per_block(size),
        (block + count) * 512 / size == (block + count) * per_block(size),
        count * 512 / size == count * per_block(size),
        count * per_block(size) * size == count * 512,
        (block + count) * per_block(size) == block * per_block(size) + count * per_block(size),
        per_block(size) >= 1,
{
    lemma_aligned_div(size, block);
    lemma_aligned_div(size, block + count);
    lemma_aligned_div(size, count);
    let k = per_block(size);
    assert(count * k * size == count * 512) by (nonlinear_arith)
        requires k * size == 512;
    assert((block + count) * k == block * k + count * k) by (nonlinear_arith);
}

proof fn lemma_aligned_div(size: int, x: int)
    requires
        block_aligned(size),
        0 <= x,
    ensures
        x * 512 / size == x * per_block(size),
        per_block(size) * size == 512,
        per_block(size) >= 1,
{
    if size == 128 {
        assert(512int / size == 4) by (nonlinear_arith)
            requires size == 128;
        assert(x * 512 / size == x * 4) by (nonlinear_arith)
            requires size == 128, x >= 0;
    } else if size == 256 {
        assert(512int / size == 2) by (nonlinear_arith)
            requires size == 256;
        assert(x * 512 / size == x * 2) by (nonlinear_arith)
            requires size == 256, x >= 0;
    } else {
        assert(512int / size == 1) by (nonlinear_arith)
            requires size == 512;
        assert(x * 512 / size == x * 1) by (nonlinear_arith)
            requires size == 512, x >= 0;
    }
}

/// Blocks that were written read as what was written.
pub proof fn lemma_read_written_blocks(contents: Seq<SectorState>, size: int, block: int, count: int, data: Seq<u8>)
    requires
        block_aligned(size),
        0 <= block,
        0 <= count,
        write_blocks_spec(contents, size, block, count, data).0 is Ok,
    ensures
        count * 512 <= data.len(),
        read_blocks_spec(write_blocks_spec(contents, size, block, count, data).1, size, block, count) == Ok::<
            Seq<u8>,
            Error,
        >(data.subrange(0, count * 512)),
        write_blocks_spec(contents, size, block, count, data).1.len() == contents.len(),
{
    lemma_block_span(size, block, count);
    let k = per_block(size);
    let lo = block * k;
    let n = count * k;
    assert(count * k >= 0) by (nonlinear_arith)
        requires count >= 0, k >= 1;
    lemma_write_range_holds(contents, size, lo, n, data);
    let after = write_range(contents, size, lo, n, data).1;
    lemma_read_range_holds(after, size, lo, n, data);
}

/// Blocks that were not written read as before.
pub proof fn lemma_read_other_blocks(
    contents: Seq<SectorState>,
    size: int,
    block: int,
    count: int,
    data: Seq<u8>,
    other: int,
    n: int,
)
    requires
        block_aligned(size),
        0 <= block,
        0 <= count,
        0 <= other,
        0 <= n,
        other + n <= block || block + count <= other,
        write_blocks_spec(contents, size, block, count, data).0 is Ok,
    ensures
        read_blocks_spec(write_blocks_spec(contents, size, block, count, data).1, size, other, n)
            == read_blocks_spec(contents, size, other, n),
{
    lemma_block_span(size, block, count);
    lemma_block_span(size, other, n);
    let k = per_block(size);
    assert(count * k >= 0) by (nonlinear_arith)
        requires count >= 0, k >= 1;
    lemma_write_range_holds(contents, size, block * k, count * k, data);
    let after = write_range(contents, size, block * k, count * k, data).1;
    if other + n <= block {
        assert((other + n) * k <= block * k) by (nonlinear_arith)
            requires other + n <= block, k >= 1;
    } else {
        assert((block + count) * k <= other * k) by (nonlinear_arith)
            requires block + count <= other, k >= 1;
    }
    lemma_read_range_same(after, contents, other * k, (other + n) * k);
}

/// Reading blocks that follow each other gives what reading them as one
/// gives.
pub proof fn lemma_read_blocks_join(contents: Seq<SectorState>, size: int, block: int, first: int, second: int)
    requires
        block_aligned(size),
        0 <= block,
        0 <= first,
        0 <= second,
        read_blocks_spec(contents, size, block, first) is Ok,
        read_blocks_spec(contents, size, block + first, second) is Ok,
    ensures
        read_blocks_spec(contents, size, block, first + second) == Ok::<Seq<u8>, Error>(
            read_blocks_spec(contents, size, block, first).unwrap() + read_blocks_spec(
                contents,
                size,
                block + first,
                second,
            ).unwrap(),
        ),
{
    lemma_block_span(size, block, first);
    lemma_block_span(size, block + first, second);
    lemma_block_span(size, block, first + second);
    let k = per_block(size);
    assert(block * k <= (block + first) * k <= (block + first + second) * k) by (nonlinear_arith)
        requires first >= 0, second >= 0, k >= 1;
    lemma_read_range_join(contents, block * k, (block + first) * k, (block + first + second) * k);
}

} // verus!
