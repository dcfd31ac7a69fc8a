use vstd::prelude::*;
use crate::block::laws::{block_aligned, lemma_read_other_blocks};
use crate::block::{read_blocks_spec, write_blocks_spec, SectorState};
use crate::bytes::word_at;
use crate::error::Error;
use crate::date::Date;
use super::laws::{distinct, lemma_chain_blocks_read, lemma_chain_follows, lemma_first_free, lemma_spans_from_apart, lemma_taken_distinct, nonzero, outside_spans, spans_apart, chain_items};
use super::volume::{
    allocated, best_of, blocks_for, delete_outcome, file_entry, first_free, formatted, free_entries, free_spans,
    lemma_best_of_range, lemma_free_spans_valid, marked, move_outcome, named_slot, numbers, rename_outcome,
    slot_outcome, spans_valid, taken, write_file_outcome, lemma_named_slot,
};
use super::volume::{
    bitmap_written, chain, chain_block, chain_blocks, chain_from, chain_limit, chain_written, cleared, persisted,
    ufd_written, VolumeView,
};
use super::{EntryView, MfdView};

use super::laws::{after_calls, Call};

verus! {

/// Slot `i` holds a file.
pub open spec fn is_file(v: VolumeView, i: int) -> bool {
    0 <= i < v.ufd.len() && v.ufd[i].name is Some
}

/// Block `x` holds the master file directory, the user file directory or
/// the bitmap, or is block 0.
pub open spec fn reserved(v: VolumeView, x: int) -> bool {
    ||| x == 0
    ||| x == 1
    ||| (v.mfd matches MfdView::VariantOne(m) && x == m.mfd2_block)
    ||| (0 <= x <= u16::MAX && v.ufd_block_list.contains(x as u16))
    ||| (0 <= x <= u16::MAX && v.bitmap_block_list.contains(x as u16))
}

/// Block `x` is a block of the chain of the file in slot `i`.
pub open spec fn file_has(v: VolumeView, c: Seq<SectorState>, size: int, i: int, x: int) -> bool {
    &&& is_file(v, i)
    &&& 0 <= x <= u16::MAX
    &&& chain_from(c, size, v.ufd[i].first_block as u16) matches Ok(items) && chain_blocks(items).contains(x as u16)
}

/// Block `x` is a block of the chain of a file.
pub open spec fn owned(v: VolumeView, c: Seq<SectorState>, size: int, x: int) -> bool {
    exists|i: int| file_has(v, c, size, i, x)
}

/// The chain that begins at the first block of the entry can be followed,
/// has as many blocks as the entry says, and ends at the block that the
/// entry names as the last.
pub open spec fn chain_fits(e: EntryView, c: Seq<SectorState>, size: int) -> bool {
    chain_from(c, size, e.first_block as u16) matches Ok(items) && items.len() == e.length && (items.len() > 0
        ==> items.last().0 == e.last_block)
}

/// The chain of every file can be followed and is as its entry says.
pub open spec fn chains_ok(v: VolumeView, c: Seq<SectorState>, size: int) -> bool {
    forall|i: int| #[trigger] is_file(v, i) ==> chain_fits(v.ufd[i], c, size)
}

/// The last block of a chain that can be followed has the link 0.
pub proof fn lemma_chain_ends(c: Seq<SectorState>, size: int, block: u16, seen: Seq<u16>, fuel: nat)
    requires
        chain(c, size, block, seen, fuel) is Ok,
    ensures
        ({
            let items = chain(c, size, block, seen, fuel).unwrap();
            items.len() > 0 ==> items.last().1.len() >= 2 && word_at(items.last().1, 0) == 0 && read_blocks_spec(
                c,
                size,
                items.last().0 as int,
                1,
            ) == Ok::<Seq<u8>, Error>(items.last().1)
        }),
    decreases fuel,
{
    if block != 0 {
        let bytes = read_blocks_spec(c, size, block as int, 1).unwrap();
        lemma_chain_ends(c, size, word_at(bytes, 0), seen.push(block), (fuel - 1) as nat);
        let rest = chain(c, size, word_at(bytes, 0), seen.push(block), (fuel - 1) as nat).unwrap();
        let all = chain(c, size, block, seen, fuel).unwrap();
        if rest.len() > 0 {
            assert(all.last() == rest.last());
        } else {
            assert(all.last() == (block, bytes));
        }
    }
}

/// The flags that are set are those of the blocks of the chains of the
/// files and of the blocks of the directories and the bitmap.
pub open spec fn bitmap_exact(v: VolumeView, c: Seq<SectorState>, size: int) -> bool {
    forall|x: int|
        0 <= x < v.bitmap.len() ==> (#[trigger] v.bitmap[x] <==> reserved(v, x) || owned(v, c, size, x))
}

/// The blocks of the chains of the files have flags, belong to one file
/// only, and are none of the blocks of the directories and the bitmap.
pub open spec fn chains_apart(v: VolumeView, c: Seq<SectorState>, size: int) -> bool {
    forall|i: int, x: int| #[trigger]
        file_has(v, c, size, i, x) ==> x < v.bitmap.len() && !reserved(v, x) && forall|j: int|
            j != i ==> !file_has(v, c, size, j, x)
}

/// The volume and the device agree: every file has a chain, the bitmap
/// marks just the blocks in use, and no block is in use twice.
pub open spec fn consistent(v: VolumeView, c: Seq<SectorState>, size: int) -> bool {
    &&& v.bitmap.len() <= 65535
    &&& chains_ok(v, c, size)
    &&& bitmap_exact(v, c, size)
    &&& chains_apart(v, c, size)
}

/// A chain is followed the same way where its blocks read the same.
pub proof fn lemma_chain_same(
    a: Seq<SectorState>,
    b: Seq<SectorState>,
    size: int,
    block: u16,
    seen: Seq<u16>,
    fuel: nat,
)
    requires
        chain(a, size, block, seen, fuel) is Ok,
        forall|x: u16| #[trigger]
            chain_blocks(chain(a, size, block, seen, fuel).unwrap()).contains(x) ==> read_blocks_spec(
                b,
                size,
                x as int,
                1,
            ) == read_blocks_spec(a, size, x as int, 1),
    ensures
        chain(b, size, block, seen, fuel) == chain(a, size, block, seen, fuel),
    decreases fuel,
{
    if block != 0 {
        let all = chain(a, size, block, seen, fuel).unwrap();
        let bytes = read_blocks_spec(a, size, block as int, 1).unwrap();
        let rest = chain(a, size, word_at(bytes, 0), seen.push(block), (fuel - 1) as nat).unwrap();
        assert(all == seq![(block, bytes)] + rest);
        assert(chain_blocks(all)[0] == block);
        assert(chain_blocks(all).contains(block));
        assert forall|x: u16| #[trigger] chain_blocks(rest).contains(x) implies read_blocks_spec(b, size, x as int, 1)
            == read_blocks_spec(a, size, x as int, 1) by {
            let k = choose|k: int| 0 <= k < chain_blocks(rest).len() && chain_blocks(rest)[k] == x;
            assert(chain_blocks(all)[k + 1] == x);
            assert(chain_blocks(all).contains(x));
        }
        lemma_chain_same(a, b, size, word_at(bytes, 0), seen.push(block), (fuel - 1) as nat);
    }
}

/// Writing a chain leaves every block that is none of its blocks as it
/// was, as far as it got.
pub proof fn lemma_chain_written_frame(
    c: Seq<SectorState>,
    size: int,
    list: Seq<u16>,
    data: Seq<u8>,
    n: int,
    x: u16,
)
    requires
        block_aligned(size),
        0 <= n <= list.len(),
        !list.contains(x),
    ensures
        read_blocks_spec(chain_written(c, size, list, data, n).1, size, x as int, 1) == read_blocks_spec(
            c,
            size,
            x as int,
            1,
        ),
    decreases n,
{
    if n > 0 {
        lemma_chain_written_frame(c, size, list, data, n - 1, x);
        let before = chain_written(c, size, list, data, n - 1);
        if before.0 is Ok {
            let block = chain_block(list, data, n - 1);
            assert(list[n - 1] != x);
            let w = write_blocks_spec(before.1, size, list[n - 1] as int, 1, block);
            if w.0 is Ok {
                lemma_read_other_blocks(before.1, size, list[n - 1] as int, 1, block, x as int, 1);
            } else {
                lemma_failed_write_frame(before.1, size, list[n - 1] as int, block, x as int);
            }
        }
    }
}

/// A write of one block that failed has changed no other block.
pub proof fn lemma_failed_write_frame(c: Seq<SectorState>, size: int, block: int, data: Seq<u8>, x: int)
    requires
        block_aligned(size),
        0 <= block,
        0 <= x,
        x != block,
    ensures
        read_blocks_spec(write_blocks_spec(c, size, block, 1, data).1, size, x, 1) == read_blocks_spec(c, size, x, 1),
{
    crate::block::laws::lemma_block_span(size, block, 1);
    crate::block::laws::lemma_block_span(size, x, 1);
    let k = crate::block::laws::per_block(size);
    let n: int = 1int * 512 / size;
    if data.len() >= n * size {
        lemma_partial_write(c, size, block * k, n, data);
        let after = crate::block::write_range(c, size, block * k, n, data).1;
        if x < block {
            assert((x + 1) * k <= block * k) by (nonlinear_arith)
                requires x + 1 <= block, k >= 1;
        } else {
            assert((block + 1) * k <= x * k) by (nonlinear_arith)
                requires block + 1 <= x, k >= 1;
        }
        crate::block::laws::lemma_read_range_same(after, c, x * k, (x + 1) * k);
    }
}

/// Writing sectors, whether or not it succeeds, changes no sector outside
/// those it is to write.
pub proof fn lemma_partial_write(c: Seq<SectorState>, size: int, lo: int, n: int, data: Seq<u8>)
    requires
        0 <= n,
    ensures
        crate::block::laws::same_outside(crate::block::write_range(c, size, lo, n, data).1, c, lo, n),
    decreases n,
{
    if n > 0 {
        lemma_partial_write(c, size, lo, n - 1, data);
        let before = crate::block::write_range(c, size, lo, n - 1, data);
        let after = crate::block::write_range(c, size, lo, n, data).1;
        assert forall|i: int| 0 <= i < after.len() && !(lo <= i < lo + n) implies #[trigger] after[i] == c[i] by {
            assert(before.1[i] == c[i]);
        }
    }
}

/// The chains of the files are the same on two devices whose blocks read
/// the same but for blocks that no file has.
pub proof fn lemma_same_chains(v: VolumeView, a: Seq<SectorState>, b: Seq<SectorState>, size: int)
    requires
        chains_ok(v, a, size),
        forall|x: u16| #[trigger]
            owned(v, a, size, x as int) ==> read_blocks_spec(b, size, x as int, 1) == read_blocks_spec(
                a,
                size,
                x as int,
                1,
            ),
    ensures
        forall|i: int| #[trigger]
            is_file(v, i) ==> chain_from(b, size, v.ufd[i].first_block as u16) == chain_from(
                a,
                size,
                v.ufd[i].first_block as u16,
            ),
{
    assert forall|i: int| #[trigger] is_file(v, i) implies chain_from(b, size, v.ufd[i].first_block as u16)
        == chain_from(a, size, v.ufd[i].first_block as u16) by {
        let first = v.ufd[i].first_block as u16;
        assert(chain_fits(v.ufd[i], a, size));
        let items = chain_from(a, size, first).unwrap();
        assert forall|x: u16| #[trigger] chain_blocks(items).contains(x) implies read_blocks_spec(
            b,
            size,
            x as int,
            1,
        ) == read_blocks_spec(a, size, x as int, 1) by {
            assert(file_has(v, a, size, i, x as int));
            assert(owned(v, a, size, x as int));
        }
        lemma_chain_same(a, b, size, first, Seq::empty(), chain_limit());
    }
}

/// A volume stays consistent where the device changes in blocks that no
/// file has.
pub proof fn lemma_consistent_frame(v: VolumeView, a: Seq<SectorState>, b: Seq<SectorState>, size: int)
    requires
        consistent(v, a, size),
        forall|x: u16| #[trigger]
            owned(v, a, size, x as int) ==> read_blocks_spec(b, size, x as int, 1) == read_blocks_spec(
                a,
                size,
                x as int,
                1,
            ),
    ensures
        consistent(v, b, size),
        forall|i: int, x: int| file_has(v, b, size, i, x) == file_has(v, a, size, i, x),
{
    lemma_same_chains(v, a, b, size);
    assert forall|i: int, x: int| file_has(v, b, size, i, x) == file_has(v, a, size, i, x) by {
        if is_file(v, i) {
            assert(chain_from(b, size, v.ufd[i].first_block as u16) == chain_from(
                a,
                size,
                v.ufd[i].first_block as u16,
            ));
        }
    }
    assert forall|x: int| owned(v, b, size, x) == owned(v, a, size, x) by {
        if owned(v, a, size, x) {
            let i = choose|i: int| file_has(v, a, size, i, x);
            assert(file_has(v, b, size, i, x));
        }
        if owned(v, b, size, x) {
            let i = choose|i: int| file_has(v, b, size, i, x);
            assert(file_has(v, a, size, i, x));
        }
    }
    assert forall|x: int| 0 <= x < v.bitmap.len() implies (#[trigger] v.bitmap[x] <==> reserved(v, x) || owned(
        v,
        b,
        size,
        x,
    )) by {
        assert(owned(v, b, size, x) == owned(v, a, size, x));
    }
    assert forall|i: int, x: int| #[trigger] file_has(v, b, size, i, x) implies x < v.bitmap.len() && !reserved(v, x)
        && forall|j: int| j != i ==> !file_has(v, b, size, j, x) by {
        assert(file_has(v, a, size, i, x));
        assert forall|j: int| j != i implies !file_has(v, b, size, j, x) by {
            assert(file_has(v, b, size, j, x) == file_has(v, a, size, j, x));
        }
    }
    assert forall|i: int| #[trigger] is_file(v, i) implies chain_fits(v.ufd[i], b, size) by {
        assert(chain_fits(v.ufd[i], a, size));
    }
}

/// Writing the directory and the bitmap, as far as it gets, leaves a
/// consistent volume consistent.
pub proof fn lemma_persisted_consistent(v: VolumeView, c: Seq<SectorState>, size: int)
    requires
        block_aligned(size),
        consistent(v, c, size),
    ensures
        consistent(v, persisted(v, c, size).2, size),
        consistent(v, ufd_written(v, c, size).1, size),
        consistent(v, bitmap_written(v, c, size).1, size),
        forall|i: int, x: int| file_has(v, persisted(v, c, size).2, size, i, x) == file_has(v, c, size, i, x),
{
    lemma_chain_writes_consistent(v, c, size, v.ufd_block_list);
    let wu = ufd_written(v, c, size);
    lemma_chain_writes_consistent(v, wu.1, size, v.bitmap_block_list);
    lemma_chain_writes_consistent(v, c, size, v.bitmap_block_list);
    let p = persisted(v, c, size).2;
    assert forall|i: int, x: int| file_has(v, p, size, i, x) == file_has(v, c, size, i, x) by {
        assert(file_has(v, wu.1, size, i, x) == file_has(v, c, size, i, x));
    }
}

/// Writing a chain of blocks of the directories or the bitmap, as far as
/// it gets and whatever the data, leaves a consistent volume consistent.
pub proof fn lemma_chain_writes_consistent(v: VolumeView, c: Seq<SectorState>, size: int, list: Seq<u16>)
    requires
        block_aligned(size),
        consistent(v, c, size),
        list == v.ufd_block_list || list == v.bitmap_block_list,
    ensures
        forall|data: Seq<u8>, n: int|
            0 <= n <= list.len() ==> consistent(v, #[trigger] chain_written(c, size, list, data, n).1, size)
                && forall|i: int, x: int|
                file_has(v, chain_written(c, size, list, data, n).1, size, i, x) == file_has(v, c, size, i, x),
{
    assert forall|data: Seq<u8>, n: int| 0 <= n <= list.len() implies consistent(
        v,
        #[trigger] chain_written(c, size, list, data, n).1,
        size,
    ) && forall|i: int, x: int|
        file_has(v, chain_written(c, size, list, data, n).1, size, i, x) == file_has(v, c, size, i, x) by {
        let after = chain_written(c, size, list, data, n).1;
        assert forall|x: u16| #[trigger] owned(v, c, size, x as int) implies read_blocks_spec(after, size, x as int, 1)
            == read_blocks_spec(c, size, x as int, 1) by {
            let i = choose|i: int| file_has(v, c, size, i, x as int);
            assert(!reserved(v, x as int));
            assert(!list.contains(x));
            lemma_chain_written_frame(c, size, list, data, n, x);
        }
        lemma_consistent_frame(v, c, after, size);
    }
}

/// A new volume is consistent, whatever the device holds: it has no file,
/// and the flags that are set are those of block 0 and of the blocks of the
/// directories and the bitmap.
pub proof fn lemma_formatted_consistent(blocks: int, c: Seq<SectorState>, size: int)
    requires
        0 <= blocks <= 65535,
        formatted(blocks).bitmap_block_list.len() + formatted(blocks).ufd_block_list.len() + 3 <= blocks,
    ensures
        consistent(formatted(blocks), c, size),
{
    let v = formatted(blocks);
    assert forall|i: int| !is_file(v, i) by {}
    assert forall|x: int| !owned(v, c, size, x) by {
        if owned(v, c, size, x) {
            let i = choose|i: int| file_has(v, c, size, i, x);
            assert(is_file(v, i));
        }
    }
    let u = v.ufd_block_list.len() as int;
    let b = v.bitmap_block_list.len() as int;
    assert forall|x: int| 0 <= x < v.bitmap.len() implies (#[trigger] v.bitmap[x] <==> reserved(v, x) || owned(
        v,
        c,
        size,
        x,
    )) by {
        if 3 <= x < 3 + u {
            assert(v.ufd_block_list[x - 3] == x as u16);
        } else if 3 + u <= x < 3 + u + b {
            assert(v.bitmap_block_list[x - 3 - u] == x as u16);
        }
        if x >= 3 + u + b {
            if v.ufd_block_list.contains(x as u16) {
                let k = choose|k: int| 0 <= k < v.ufd_block_list.len() && v.ufd_block_list[k] == x as u16;
            }
            if v.bitmap_block_list.contains(x as u16) {
                let k = choose|k: int| 0 <= k < v.bitmap_block_list.len() && v.bitmap_block_list[k] == x as u16;
            }
        }
    }
}

/// Clearing the flags of blocks that all have flags clears just these.
pub proof fn lemma_cleared_exact(bits: Seq<bool>, blocks: Seq<u16>, k: int)
    requires
        0 <= k <= blocks.len(),
        bits.len() <= 65535,
        forall|i: int| 0 <= i < blocks.len() ==> #[trigger] blocks[i] < bits.len(),
    ensures
        cleared(bits, blocks, k).0 is Ok,
        cleared(bits, blocks, k).1.len() == bits.len(),
        forall|x: int|
            0 <= x < bits.len() ==> (#[trigger] cleared(bits, blocks, k).1[x] <==> bits[x] && !blocks.subrange(
                0,
                k,
            ).contains(x as u16)),
    decreases k,
{
    if k > 0 {
        lemma_cleared_exact(bits, blocks, k - 1);
        let before = cleared(bits, blocks, k - 1).1;
        let after = cleared(bits, blocks, k).1;
        assert(blocks[k - 1] < bits.len());
        assert forall|x: int| 0 <= x < bits.len() implies (#[trigger] after[x] <==> bits[x] && !blocks.subrange(
            0,
            k,
        ).contains(x as u16)) by {
            let short = blocks.subrange(0, k - 1);
            let long = blocks.subrange(0, k);
            assert(long =~= short.push(blocks[k - 1]));
            crate::fs::xxdp::volume::lemma_push_contains(short, blocks[k - 1], x as u16);
        }
    } else {
        assert(blocks.subrange(0, 0) =~= Seq::<u16>::empty());
    }
}

/// Deleting a file leaves a consistent volume consistent, on the device
/// as it is and as it is after the directory and the bitmap are written,
/// as far as that gets.
pub proof fn lemma_delete_consistent(v: VolumeView, c: Seq<SectorState>, size: int, name: Seq<char>)
    requires
        block_aligned(size),
        consistent(v, c, size),
    ensures
        consistent(delete_outcome(v, c, size, name).1, delete_outcome(v, c, size, name).2, size),
        delete_outcome(v, c, size, name).1.bitmap.len() == v.bitmap.len(),
{
    match named_slot(v.ufd, name, 0) {
        None => {},
        Some(i) => {
            lemma_named_slot(v.ufd, name, 0);
            assert(is_file(v, i));
            let items = chain_from(c, size, v.ufd[i].first_block as u16).unwrap();
            let blocks = chain_blocks(items);
            assert forall|k: int| 0 <= k < blocks.len() implies #[trigger] blocks[k] < v.bitmap.len() by {
                assert(blocks.contains(blocks[k]));
                assert(file_has(v, c, size, i, blocks[k] as int));
            }
            lemma_cleared_exact(v.bitmap, blocks, blocks.len() as int);
            assert(blocks.subrange(0, blocks.len() as int) =~= blocks);
            let bits = cleared(v.bitmap, blocks, blocks.len() as int).1;
            let v1 = VolumeView { bitmap: bits, ufd: v.ufd.update(i, EntryView { name: None, ..v.ufd[i] }), ..v };
            assert forall|j: int, x: int| file_has(v1, c, size, j, x) == (j != i && file_has(v, c, size, j, x)) by {
                if j != i && 0 <= j < v.ufd.len() {
                    assert(v1.ufd[j] == v.ufd[j]);
                }
            }
            assert forall|x: int| reserved(v1, x) == reserved(v, x) by {}
            assert forall|x: int| 0 <= x < v1.bitmap.len() implies (#[trigger] v1.bitmap[x] <==> reserved(v1, x)
                || owned(v1, c, size, x)) by {
                assert(v.bitmap[x] <==> reserved(v, x) || owned(v, c, size, x));
                if owned(v1, c, size, x) {
                    let j = choose|j: int| file_has(v1, c, size, j, x);
                    assert(file_has(v, c, size, j, x));
                    assert(!file_has(v, c, size, i, x));
                }
                if blocks.contains(x as u16) {
                    assert(file_has(v, c, size, i, x));
                    assert(!reserved(v, x));
                    if owned(v1, c, size, x) {
                        let j = choose|j: int| file_has(v1, c, size, j, x);
                        assert(file_has(v, c, size, j, x) && j != i);
                    }
                } else if v.bitmap[x] && !reserved(v, x) {
                    let j = choose|j: int| file_has(v, c, size, j, x);
                    assert(j != i);
                    assert(file_has(v1, c, size, j, x));
                }
            }
            assert forall|j: int, x: int| #[trigger] file_has(v1, c, size, j, x) implies x < v1.bitmap.len()
                && !reserved(v1, x) && forall|k: int| k != j ==> !file_has(v1, c, size, k, x) by {
                assert(file_has(v, c, size, j, x));
                assert forall|k: int| k != j implies !file_has(v1, c, size, k, x) by {
                    assert(!file_has(v, c, size, k, x));
                }
            }
            assert forall|j: int| #[trigger] is_file(v1, j) implies chain_fits(v1.ufd[j], c, size) by {
                assert(j != i);
                assert(is_file(v, j));
            }
            assert(consistent(v1, c, size));
            lemma_persisted_consistent(v1, c, size);
        },
    }
}

/// Giving a file another name leaves a consistent volume consistent.
pub proof fn lemma_rename_consistent(v: VolumeView, c: Seq<SectorState>, size: int, src: Seq<char>, dest: Seq<char>)
    requires
        block_aligned(size),
        consistent(v, c, size),
    ensures
        consistent(rename_outcome(v, c, size, src, dest).1, rename_outcome(v, c, size, src, dest).2, size),
        consistent(move_outcome(v, c, size, src, dest).1, move_outcome(v, c, size, src, dest).2, size),
{
    lemma_rename_only(v, c, size, src, dest);
    lemma_delete_consistent(v, c, size, dest);
    let d = delete_outcome(v, c, size, dest);
    lemma_rename_only(d.1, d.2, size, src, dest);
}

proof fn lemma_rename_only(v: VolumeView, c: Seq<SectorState>, size: int, src: Seq<char>, dest: Seq<char>)
    requires
        block_aligned(size),
        consistent(v, c, size),
    ensures
        consistent(rename_outcome(v, c, size, src, dest).1, rename_outcome(v, c, size, src, dest).2, size),
{
    if super::name_words(Some(dest)) is Ok {
        match named_slot(v.ufd, src, 0) {
            None => {},
            Some(i) => {
                lemma_named_slot(v.ufd, src, 0);
                let v1 = VolumeView { ufd: v.ufd.update(i, EntryView { name: Some(dest), ..v.ufd[i] }), ..v };
                assert forall|j: int, x: int| file_has(v1, c, size, j, x) == file_has(v, c, size, j, x) by {
                    if 0 <= j < v.ufd.len() && j != i {
                        assert(v1.ufd[j] == v.ufd[j]);
                    }
                }
                assert forall|x: int| owned(v1, c, size, x) == owned(v, c, size, x) by {
                    if owned(v, c, size, x) {
                        let j = choose|j: int| file_has(v, c, size, j, x);
                        assert(file_has(v1, c, size, j, x));
                    }
                    if owned(v1, c, size, x) {
                        let j = choose|j: int| file_has(v1, c, size, j, x);
                        assert(file_has(v, c, size, j, x));
                    }
                }
                assert forall|x: int| 0 <= x < v1.bitmap.len() implies (#[trigger] v1.bitmap[x] <==> reserved(v1, x)
                    || owned(v1, c, size, x)) by {
                    assert(v.bitmap[x] <==> reserved(v, x) || owned(v, c, size, x));
                    assert(owned(v1, c, size, x) == owned(v, c, size, x));
                }
                assert forall|j: int, x: int| #[trigger] file_has(v1, c, size, j, x) implies x < v1.bitmap.len()
                    && !reserved(v1, x) && forall|k: int| k != j ==> !file_has(v1, c, size, k, x) by {
                    assert(file_has(v, c, size, j, x));
                    assert forall|k: int| k != j implies !file_has(v1, c, size, k, x) by {
                        assert(!file_has(v, c, size, k, x));
                    }
                }
                assert forall|j: int| #[trigger] is_file(v1, j) implies chain_fits(v1.ufd[j], c, size) by {
                    assert(is_file(v, j));
                }
                assert(consistent(v1, c, size));
                lemma_persisted_consistent(v1, c, size);
            },
        }
    }
}

/// The blocks that are taken were free, and the flags that are set
/// afterwards are those that were set and those of the blocks taken.
pub proof fn lemma_taken_exact(bits: Seq<bool>, spans: Seq<(int, int)>, want: int, count: int, got: Seq<u16>)
    requires
        bits.len() <= 65535,
        spans_valid(spans, bits.len() as int),
        spans_apart(spans),
        distinct(got),
        outside_spans(got, spans),
        taken(bits, spans, want, count, got).0 is Ok,
    ensures
        ({
            let list = taken(bits, spans, want, count, got).0.unwrap();
            let after = taken(bits, spans, want, count, got).1;
            &&& after.len() == bits.len()
            &&& list.len() >= got.len()
            &&& forall|x: int|
                0 <= x < bits.len() ==> (#[trigger] after[x] <==> bits[x] || exists|k: int|
                    got.len() <= k < list.len() && list[k] == x)
            &&& forall|k: int|
                got.len() <= k < list.len() ==> exists|j: int|
                    0 <= j < spans.len() && (#[trigger] spans[j]).0 <= #[trigger] list[k] < spans[j].1
        }),
    decreases spans.len(),
{
    lemma_taken_distinct(bits, spans, want, count, got);
    let list = taken(bits, spans, want, count, got).0.unwrap();
    let after = taken(bits, spans, want, count, got).1;
    if count > 0 {
        let best = best_of(spans, want, spans.len() as int);
        lemma_best_of_range(spans, want, spans.len() as int);
        let span = spans[best];
        assert(0 <= span.0 < span.1 <= bits.len());
        let take = if span.1 - span.0 < count { span.1 - span.0 } else { count };
        let more = numbers(span.0, span.0 + take);
        let got2 = got + more;
        let rest = spans.remove(best);
        let bits2 = marked(bits, span.0, span.0 + take);
        assert forall|i: int, j: int| 0 <= i < j < got2.len() implies got2[i] != got2[j] by {
            if j < got.len() {
            } else if i < got.len() {
                assert(!(spans[best].0 <= got[i] < spans[best].1));
                assert(got2[j] == (span.0 + (j - got.len())) as u16);
            } else {
                assert(got2[i] == (span.0 + (i - got.len())) as u16);
                assert(got2[j] == (span.0 + (j - got.len())) as u16);
            }
        }
        assert forall|k: int| 0 <= k < rest.len() implies 0 <= (#[trigger] rest[k]).0 < rest[k].1 <= bits.len() by {
            if k < best {
                assert(rest[k] == spans[k]);
            } else {
                assert(rest[k] == spans[k + 1]);
            }
        }
        assert forall|a: int, b: int| 0 <= a < b < rest.len() implies (#[trigger] rest[a]).1 <= (#[trigger] rest[b]).0 by {
            let a2 = if a < best { a } else { a + 1 };
            let b2 = if b < best { b } else { b + 1 };
            assert(rest[a] == spans[a2] && rest[b] == spans[b2]);
        }
        assert forall|i: int, k: int| 0 <= i < got2.len() && 0 <= k < rest.len() implies !((#[trigger] rest[k]).0 <= (
        #[trigger] got2[i]) < rest[k].1) by {
            let k2 = if k < best { k } else { k + 1 };
            assert(rest[k] == spans[k2]);
            if i < got.len() {
                assert(!(spans[k2].0 <= got[i] < spans[k2].1));
            } else {
                assert(got2[i] == (span.0 + (i - got.len())) as u16);
                if k2 < best {
                    assert(spans[k2].1 <= spans[best].0);
                } else {
                    assert(spans[best].1 <= spans[k2].0);
                }
            }
        }
        lemma_taken_exact(bits2, rest, want, count - take, got2);
        lemma_taken_distinct(bits2, rest, want, count - take, got2);
        assert(list.subrange(0, got2.len() as int) == got2);
        assert forall|k: int| got.len() <= k < got2.len() implies list[k] == (span.0 + (k - got.len())) as u16 by {
            assert(list.subrange(0, got2.len() as int)[k] == got2[k]);
        }
        assert forall|x: int| 0 <= x < bits.len() implies (#[trigger] after[x] <==> bits[x] || exists|k: int|
            got.len() <= k < list.len() && list[k] == x) by {
            if span.0 <= x < span.0 + take {
                let k = got.len() + (x - span.0);
                assert(list[k] == x);
            }
            if exists|k: int| got2.len() <= k < list.len() && list[k] == x {
                let k = choose|k: int| got2.len() <= k < list.len() && list[k] == x;
                assert(got.len() <= k < list.len() && list[k] == x);
            }
            if exists|k: int| got.len() <= k < list.len() && list[k] == x {
                let k = choose|k: int| got.len() <= k < list.len() && list[k] == x;
                if k < got2.len() {
                    assert(span.0 <= x < span.0 + take);
                }
            }
        }
        assert forall|k: int| got.len() <= k < list.len() implies exists|j: int|
            0 <= j < spans.len() && (#[trigger] spans[j]).0 <= #[trigger] list[k] < spans[j].1 by {
            if k < got2.len() {
                assert(spans[best].0 <= list[k] < spans[best].1);
            } else {
                let j = choose|j: int| 0 <= j < rest.len() && (#[trigger] rest[j]).0 <= list[k] < rest[j].1;
                let j2 = if j < best { j } else { j + 1 };
                assert(rest[j] == spans[j2]);
                assert(spans[j2].0 <= list[k] < spans[j2].1);
            }
        }
    } else {
        assert(list == got);
    }
}

/// The blocks that are taken were free and are no block twice, and the
/// flags that are set afterwards are those that were set and those of the
/// blocks taken.
pub proof fn lemma_allocated_exact(bits: Seq<bool>, want: int)
    requires
        bits.len() <= 65535,
        0 <= want,
        allocated(bits, want).0 is Ok,
    ensures
        ({
            let list = allocated(bits, want).0.unwrap();
            let after = allocated(bits, want).1;
            &&& after.len() == bits.len()
            &&& list.len() == want
            &&& distinct(list)
            &&& forall|k: int| 0 <= k < list.len() ==> #[trigger] list[k] < bits.len() && !bits[list[k] as int]
            &&& forall|x: int| 0 <= x < bits.len() ==> (#[trigger] after[x] <==> bits[x] || list.contains(x as u16))
        }),
{
    let spans = free_spans(bits);
    lemma_free_spans_valid(bits);
    lemma_spans_from_apart(bits, 0, None);
    lemma_taken_distinct(bits, spans, want, want, Seq::empty());
    lemma_taken_exact(bits, spans, want, want, Seq::empty());
    let list = allocated(bits, want).0.unwrap();
    let after = allocated(bits, want).1;
    assert forall|k: int| 0 <= k < list.len() implies #[trigger] list[k] < bits.len() && !bits[list[k] as int] by {
        let j = choose|j: int| 0 <= j < spans.len() && (#[trigger] spans[j]).0 <= list[k] < spans[j].1;
        assert(0 <= spans[j].0 < spans[j].1 <= bits.len());
    }
    assert forall|x: int| 0 <= x < bits.len() implies (#[trigger] after[x] <==> bits[x] || list.contains(x as u16)) by {
        if list.contains(x as u16) {
            let k = choose|k: int| 0 <= k < list.len() && list[k] == x as u16;
            assert(0 <= k < list.len() && list[k] == x);
        }
        if exists|k: int| 0 <= k < list.len() && list[k] == x {
            let k = choose|k: int| 0 <= k < list.len() && list[k] == x;
            assert(list[k] == x as u16);
        }
    }
}

/// Asking for a free slot leaves a consistent volume consistent where it
/// succeeds.
pub proof fn lemma_slot_consistent(v: VolumeView, c: Seq<SectorState>, size: int)
    requires
        block_aligned(size),
        consistent(v, c, size),
        slot_outcome(v, c, size).0 is Ok,
    ensures
        consistent(slot_outcome(v, c, size).1, slot_outcome(v, c, size).2, size),
        slot_outcome(v, c, size).1.bitmap.len() == v.bitmap.len(),
        ({
            let slot = slot_outcome(v, c, size).0.unwrap();
            0 <= slot < slot_outcome(v, c, size).1.ufd.len() && slot_outcome(v, c, size).1.ufd[slot].name is None
        }),
        forall|i: int| 0 <= i < v.ufd.len() ==> slot_outcome(v, c, size).1.ufd[i] == v.ufd[i],
        forall|i: int| v.ufd.len() <= i < slot_outcome(v, c, size).1.ufd.len() ==> slot_outcome(v, c, size).1.ufd[i].name is None,
{
    lemma_first_free(v.ufd, 0);
    match first_free(v.ufd, 0) {
        Some(_) => {},
        None => {
            lemma_allocated_exact(v.bitmap, 1);
            let a = allocated(v.bitmap, 1);
            let list = a.0.unwrap();
            let u = list[0];
            let v1 = VolumeView {
                bitmap: a.1,
                ufd_block_list: v.ufd_block_list.push(u),
                ufd: v.ufd + free_entries(28),
                ..v
            };
            assert(list.contains(u));
            assert(!v.bitmap[u as int]);
            assert forall|j: int, x: int| file_has(v1, c, size, j, x) == file_has(v, c, size, j, x) by {
                if 0 <= j < v.ufd.len() {
                    assert(v1.ufd[j] == v.ufd[j]);
                }
            }
            assert forall|x: int| owned(v1, c, size, x) == owned(v, c, size, x) by {
                if owned(v, c, size, x) {
                    let j = choose|j: int| file_has(v, c, size, j, x);
                    assert(file_has(v1, c, size, j, x));
                }
                if owned(v1, c, size, x) {
                    let j = choose|j: int| file_has(v1, c, size, j, x);
                    assert(file_has(v, c, size, j, x));
                }
            }
            assert forall|x: int| reserved(v1, x) == (reserved(v, x) || x == u) by {
                if 0 <= x <= u16::MAX {
                    crate::fs::xxdp::volume::lemma_push_contains(v.ufd_block_list, u, x as u16);
                }
            }
            assert forall|x: int| 0 <= x < v1.bitmap.len() implies (#[trigger] v1.bitmap[x] <==> reserved(v1, x)
                || owned(v1, c, size, x)) by {
                assert(v.bitmap[x] <==> reserved(v, x) || owned(v, c, size, x));
                assert(owned(v1, c, size, x) == owned(v, c, size, x));
                if list.contains(x as u16) {
                    let k = choose|k: int| 0 <= k < list.len() && list[k] == x as u16;
                    assert(k == 0);
                }
            }
            assert forall|j: int, x: int| #[trigger] file_has(v1, c, size, j, x) implies x < v1.bitmap.len()
                && !reserved(v1, x) && forall|k: int| k != j ==> !file_has(v1, c, size, k, x) by {
                assert(file_has(v, c, size, j, x));
                assert(owned(v, c, size, x));
                assert(v.bitmap[x]);
                assert forall|k: int| k != j implies !file_has(v1, c, size, k, x) by {
                    assert(!file_has(v, c, size, k, x));
                }
            }
            assert forall|j: int| #[trigger] is_file(v1, j) implies chain_fits(v1.ufd[j], c, size) by {
                assert(is_file(v, j));
            }
            assert(consistent(v1, c, size));
            lemma_chain_writes_consistent(v1, c, size, v1.bitmap_block_list);
            let wb = bitmap_written(v1, c, size);
            lemma_chain_writes_consistent(v1, wb.1, size, v1.ufd_block_list);
        },
    }
}

/// Writing a file leaves a consistent volume consistent where it
/// succeeds: the flags that are set are still just those of the blocks of
/// the chains of the files and of the directories and the bitmap, every
/// file has its chain, and no block is in use twice.
pub proof fn lemma_write_file_consistent(
    v: VolumeView,
    c: Seq<SectorState>,
    size: int,
    name: Seq<char>,
    data: Seq<u8>,
    date: Date,
)
    requires
        block_aligned(size),
        consistent(v, c, size),
        write_file_outcome(v, c, size, name, data, date).0 is Ok,
    ensures
        consistent(
            write_file_outcome(v, c, size, name, data, date).1,
            write_file_outcome(v, c, size, name, data, date).2,
            size,
        ),
{
    let d = delete_outcome(v, c, size, name);
    lemma_delete_consistent(v, c, size, name);
    let s = slot_outcome(d.1, d.2, size);
    lemma_slot_consistent(d.1, d.2, size);
    let slot = s.0.unwrap();
    let blocks = blocks_for(data.len() as int);
    let a = allocated(s.1.bitmap, blocks);
    lemma_allocated_exact(s.1.bitmap, blocks);
    let list = a.0.unwrap();
    let entry = file_entry(name, date, list, blocks as usize);
    let v1 = s.1;
    let c1 = s.2;
    let v2 = VolumeView { bitmap: a.1, ufd: v1.ufd.update(slot, entry), ..v1 };
    let p = persisted(v2, c1, size);
    let wu = ufd_written(v2, c1, size);
    let wc = chain_written(p.2, size, list, data, list.len() as int);
    let c2 = wc.1;
    assert(write_file_outcome(v, c, size, name, data, date).1 == v2);
    assert(write_file_outcome(v, c, size, name, data, date).2 == c2);
    assert forall|x: int| reserved(v2, x) == reserved(v1, x) by {}
    // No block of the new chain is a block of an old chain or of the directories.
    assert forall|k: int| 0 <= k < list.len() implies !reserved(v1, #[trigger] list[k] as int) && !owned(
        v1,
        c1,
        size,
        list[k] as int,
    ) && list[k] != 0 by {
        assert(!v1.bitmap[list[k] as int]);
        assert(v1.bitmap[list[k] as int] <==> reserved(v1, list[k] as int) || owned(v1, c1, size, list[k] as int));
    }
    // The old chains read the same on the device afterwards.
    assert forall|x: u16| #[trigger] owned(v1, c1, size, x as int) implies read_blocks_spec(c2, size, x as int, 1)
        == read_blocks_spec(c1, size, x as int, 1) by {
        let j = choose|j: int| file_has(v1, c1, size, j, x as int);
        assert(!reserved(v1, x as int));
        assert(!v2.ufd_block_list.contains(x));
        assert(!v2.bitmap_block_list.contains(x));
        if list.contains(x) {
            let k = choose|k: int| 0 <= k < list.len() && list[k] == x;
            assert(!owned(v1, c1, size, list[k] as int));
        }
        lemma_chain_written_frame(c1, size, v2.ufd_block_list, super::volume::ufd_stream(v2.ufd).unwrap(), v2.ufd_block_list.len() as int, x);
        lemma_chain_written_frame(
            wu.1,
            size,
            v2.bitmap_block_list,
            super::volume::bitmap_stream(v2.bitmap, v2.bitmap_block_list[0], super::volume::map_count(v2.bitmap)),
            v2.bitmap_block_list.len() as int,
            x,
        );
        lemma_chain_written_frame(p.2, size, list, data, list.len() as int, x);
    }
    lemma_consistent_frame(v1, c1, c2, size);
    // The new chain is the blocks that were taken.
    assert(nonzero(list));
    assert forall|i: int| 0 <= i < list.len() implies #[trigger] read_blocks_spec(c2, size, list[i] as int, 1)
        == Ok::<Seq<u8>, Error>(chain_block(list, data, i)) by {
        lemma_chain_blocks_read(p.2, size, list, data, list.len() as int, i);
    }
    lemma_chain_follows(c2, size, list, data, 0);
    assert(list.subrange(0, 0) =~= Seq::<u16>::empty());
    let items = chain_items(list, data, 0);
    assert(chain_from(c2, size, entry.first_block as u16) == Ok::<Seq<(u16, Seq<u8>)>, Error>(items));
    assert(chain_blocks(items) =~= list);
    assert(v2.ufd[slot] == entry);
    assert forall|j: int, x: int| file_has(v2, c2, size, j, x) == (if j == slot {
        0 <= x <= u16::MAX && list.contains(x as u16)
    } else {
        file_has(v1, c1, size, j, x)
    }) by {
        if j != slot {
            if 0 <= j < v1.ufd.len() {
                assert(v2.ufd[j] == v1.ufd[j]);
            }
            assert(file_has(v1, c2, size, j, x) == file_has(v1, c1, size, j, x));
        }
    }
    assert forall|x: int| owned(v2, c2, size, x) == (owned(v1, c1, size, x) || (0 <= x <= u16::MAX && list.contains(
        x as u16,
    ))) by {
        if owned(v1, c1, size, x) {
            let j = choose|j: int| file_has(v1, c1, size, j, x);
            assert(j != slot);
            assert(file_has(v2, c2, size, j, x));
        }
        if 0 <= x <= u16::MAX && list.contains(x as u16) {
            assert(file_has(v2, c2, size, slot, x));
        }
        if owned(v2, c2, size, x) {
            let j = choose|j: int| file_has(v2, c2, size, j, x);
            if j != slot {
                assert(file_has(v1, c1, size, j, x));
            }
        }
    }
    assert forall|x: int| 0 <= x < v2.bitmap.len() implies (#[trigger] v2.bitmap[x] <==> reserved(v2, x) || owned(
        v2,
        c2,
        size,
        x,
    )) by {
        assert(v1.bitmap[x] <==> reserved(v1, x) || owned(v1, c1, size, x));
        assert(a.1[x] <==> v1.bitmap[x] || list.contains(x as u16));
        assert(owned(v2, c2, size, x) == (owned(v1, c1, size, x) || list.contains(x as u16)));
    }
    assert forall|j: int, x: int| #[trigger] file_has(v2, c2, size, j, x) implies x < v2.bitmap.len() && !reserved(
        v2,
        x,
    ) && forall|k: int| k != j ==> !file_has(v2, c2, size, k, x) by {
        if j == slot {
            let i = choose|i: int| 0 <= i < list.len() && list[i] == x as u16;
            assert(!reserved(v1, list[i] as int) && !owned(v1, c1, size, list[i] as int));
            assert forall|k: int| k != j implies !file_has(v2, c2, size, k, x) by {
                if file_has(v1, c1, size, k, x) {
                    assert(owned(v1, c1, size, x));
                }
            }
        } else {
            assert(file_has(v1, c1, size, j, x));
            assert(owned(v1, c1, size, x));
            assert forall|k: int| k != j implies !file_has(v2, c2, size, k, x) by {
                if k == slot {
                    if list.contains(x as u16) {
                        let i = choose|i: int| 0 <= i < list.len() && list[i] == x as u16;
                        assert(!owned(v1, c1, size, list[i] as int));
                    }
                } else {
                    assert(!file_has(v1, c1, size, k, x));
                }
            }
        }
    }
    assert forall|j: int| #[trigger] is_file(v2, j) implies chain_fits(v2.ufd[j], c2, size) by {
        if j != slot {
            assert(v2.ufd[j] == v1.ufd[j]);
            assert(is_file(v1, j));
            lemma_same_chains(v1, c1, c2, size);
            assert(chain_fits(v1.ufd[j], c1, size));
        } else {
            assert(items.len() == list.len());
            if items.len() > 0 {
                assert(items.last().0 == list.last());
            }
        }
    }
}

/// A volume that was just made is consistent.
pub proof fn lemma_mkfs_consistent(contents: Seq<SectorState>, size: int)
    requires
        super::volume::mkfs_outcome(contents, size) is Ok,
    ensures
        consistent(
            super::volume::mkfs_outcome(contents, size).unwrap().0,
            super::volume::mkfs_outcome(contents, size).unwrap().1,
            size,
        ),
{
    let blocks = super::volume::device_blocks(contents, size);
    assert(blocks >= 0) by {
        if blocks < 0 {
            assert(formatted(blocks).bitmap_block_list.len() + formatted(blocks).ufd_block_list.len() + 3 > blocks);
        }
    }
    lemma_formatted_consistent(blocks, super::volume::mkfs_outcome(contents, size).unwrap().1, size);
}

/// Every call of `calls` that writes a file succeeds, on the volume as the
/// calls before it left it.
pub open spec fn writes_succeed(v: VolumeView, c: Seq<SectorState>, size: int, calls: Seq<Call>) -> bool
    decreases calls.len(),
{
    if calls.len() == 0 {
        true
    } else {
        let before = after_calls(v, c, size, calls.drop_last());
        &&& writes_succeed(v, c, size, calls.drop_last())
        &&& (calls.last() matches Call::Write { name, data, date } ==> write_file_outcome(
            before.0,
            before.1,
            size,
            name,
            data,
            date,
        ).0 is Ok)
    }
}

/// Whatever files are written, deleted and given other names, a
/// consistent volume stays consistent as long as every write succeeds:
/// whether a file is found to delete or to name anew makes no difference.
pub proof fn lemma_calls_consistent(v: VolumeView, c: Seq<SectorState>, size: int, calls: Seq<Call>)
    requires
        block_aligned(size),
        consistent(v, c, size),
        writes_succeed(v, c, size, calls),
    ensures
        consistent(after_calls(v, c, size, calls).0, after_calls(v, c, size, calls).1, size),
    decreases calls.len(),
{
    if calls.len() > 0 {
        lemma_calls_consistent(v, c, size, calls.drop_last());
        let before = after_calls(v, c, size, calls.drop_last());
        match calls.last() {
            Call::Write { name, data, date } => {
                lemma_write_file_consistent(before.0, before.1, size, name, data, date);
            },
            Call::Delete { name } => {
                lemma_delete_consistent(before.0, before.1, size, name);
            },
            Call::Rename { src, dest } => {
                lemma_rename_consistent(before.0, before.1, size, src, dest);
            },
        }
    }
}

/// A volume that was just made, and whatever files were then written,
/// deleted and given other names, is consistent as long as every write
/// succeeded.
pub proof fn lemma_consistent_after_calls(contents: Seq<SectorState>, size: int, calls: Seq<Call>)
    requires
        block_aligned(size),
        super::volume::mkfs_outcome(contents, size) is Ok,
        writes_succeed(
            super::volume::mkfs_outcome(contents, size).unwrap().0,
            super::volume::mkfs_outcome(contents, size).unwrap().1,
            size,
            calls,
        ),
    ensures
        ({
            let made = super::volume::mkfs_outcome(contents, size).unwrap();
            let after = after_calls(made.0, made.1, size, calls);
            consistent(after.0, after.1, size)
        }),
{
    let made = super::volume::mkfs_outcome(contents, size).unwrap();
    lemma_mkfs_consistent(contents, size);
    lemma_calls_consistent(made.0, made.1, size, calls);
}

} // verus!
