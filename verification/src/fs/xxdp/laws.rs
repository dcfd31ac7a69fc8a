use vstd::prelude::*;
use crate::block::laws::{block_aligned, lemma_read_other_blocks, lemma_read_written_blocks};
use crate::block::{read_blocks_spec, SectorState};
use crate::bytes::{word_at, word_bytes};
use crate::error::Error;
use crate::fs::rt11::zeros;
use crate::date::Date;
use super::volume::{allocated, blocks_for, cleared, delete_outcome, file_entry, first_free, lemma_free_spans_valid, named_slot, persisted, read_file_outcome, slot_outcome, write_file_outcome, VolumeView};
use super::EntryView;
use super::volume::{
    best_of, chain, chain_block, chain_blocks, chain_from, chain_limit, chain_written, chunk_start, free_spans,
    lemma_best_of_range, marked, numbers, payload, spans_from, spans_valid, taken,
};

verus! {

/// No block occurs twice.
pub open spec fn distinct(list: Seq<u16>) -> bool {
    forall|i: int, j: int| 0 <= i < j < list.len() ==> list[i] != list[j]
}

/// No block is block 0.
pub open spec fn nonzero(list: Seq<u16>) -> bool {
    forall|i: int| 0 <= i < list.len() ==> #[trigger] list[i] != 0
}

/// The blocks of a chain that holds `data`, from block `k` of the chain on,
/// each with what it holds.
pub open spec fn chain_items(list: Seq<u16>, data: Seq<u8>, k: int) -> Seq<(u16, Seq<u8>)> {
    Seq::new((list.len() - k) as nat, |i: int| (list[k + i], chain_block(list, data, k + i)))
}

/// After a chain is written, each of its blocks reads as it was written.
pub proof fn lemma_chain_blocks_read(
    contents: Seq<SectorState>,
    size: int,
    list: Seq<u16>,
    data: Seq<u8>,
    m: int,
    k: int,
)
    requires
        block_aligned(size),
        distinct(list),
        0 <= k < m <= list.len(),
        chain_written(contents, size, list, data, m).0 is Ok,
    ensures
        read_blocks_spec(chain_written(contents, size, list, data, m).1, size, list[k] as int, 1) == Ok::<
            Seq<u8>,
            Error,
        >(chain_block(list, data, k)),
    decreases m,
{
    let before = chain_written(contents, size, list, data, m - 1);
    let block = chain_block(list, data, m - 1);
    assert(block.len() == 512) by {
        lemma_chain_block_len(list, data, m - 1);
    }
    if k == m - 1 {
        lemma_read_written_blocks(before.1, size, list[k] as int, 1, block);
        assert(block.subrange(0, 512) =~= block);
    } else {
        lemma_chain_blocks_read(contents, size, list, data, m - 1, k);
        assert(list[k] != list[m - 1]);
        lemma_read_other_blocks(before.1, size, list[m - 1] as int, 1, block, list[k] as int, 1);
    }
}

pub proof fn lemma_chain_block_len(list: Seq<u16>, data: Seq<u8>, k: int)
    requires
        0 <= k,
    ensures
        chain_block(list, data, k).len() == 512,
        word_at(chain_block(list, data, k), 0) == (if k + 1 < list.len() { list[k + 1] } else { 0u16 }),
        chain_block(list, data, k).subrange(2, 512) == data.subrange(chunk_start(data, k), chunk_start(data, k + 1))
            + zeros(510 - (chunk_start(data, k + 1) - chunk_start(data, k))),
{
    assert(k * 510 + 510 == (k + 1) * 510) by (nonlinear_arith);
    assert(0 <= k * 510) by (nonlinear_arith)
        requires k >= 0;
    let next = if k + 1 < list.len() { list[k + 1] } else { 0u16 };
    crate::bytes::lemma_word_roundtrip(next);
    let part = data.subrange(chunk_start(data, k), chunk_start(data, k + 1));
    let block = chain_block(list, data, k);
    assert(block[0] == word_bytes(next)[0] && block[1] == word_bytes(next)[1]);
    assert(block.subrange(2, 512) =~= part + zeros(510 - part.len()));
}

proof fn lemma_prefix_contains(list: Seq<u16>, k: int)
    requires
        distinct(list),
        0 <= k < list.len(),
    ensures
        !list.subrange(0, k).contains(list[k]),
{
    if list.subrange(0, k).contains(list[k]) {
        let i = choose|i: int| 0 <= i < k && list.subrange(0, k)[i] == list[k];
        assert(list[i] == list[k]);
    }
}

/// Following the links of a chain that was written finds the blocks of the
/// chain in their order, each as it was written.
pub proof fn lemma_chain_follows(c: Seq<SectorState>, size: int, list: Seq<u16>, data: Seq<u8>, k: int)
    requires
        distinct(list),
        nonzero(list),
        list.len() < chain_limit(),
        0 <= k <= list.len(),
        forall|i: int| 0 <= i < list.len() ==> #[trigger] read_blocks_spec(c, size, list[i] as int, 1) == Ok::<
            Seq<u8>,
            Error,
        >(chain_block(list, data, i)),
    ensures
        chain(
            c,
            size,
            if k < list.len() { list[k] } else { 0u16 },
            list.subrange(0, k),
            (chain_limit() - k) as nat,
        ) == Ok::<Seq<(u16, Seq<u8>)>, Error>(chain_items(list, data, k)),
    decreases list.len() - k,
{
    if k < list.len() {
        lemma_prefix_contains(list, k);
        lemma_chain_block_len(list, data, k);
        assert(list[k] != 0);
        assert(read_blocks_spec(c, size, list[k] as int, 1) == Ok::<Seq<u8>, Error>(chain_block(list, data, k)));
        lemma_chain_follows(c, size, list, data, k + 1);
        assert(list.subrange(0, k).push(list[k]) =~= list.subrange(0, k + 1));
        assert(seq![(list[k], chain_block(list, data, k))] + chain_items(list, data, k + 1) =~= chain_items(
            list,
            data,
            k,
        ));
    } else {
        assert(chain_items(list, data, k) =~= Seq::<(u16, Seq<u8>)>::empty());
    }
}

/// What the blocks of a chain that holds `data` hold after their links is
/// `data`, filled up with zeros to 510 bytes for each block.
pub proof fn lemma_chain_payload(list: Seq<u16>, data: Seq<u8>, k: int)
    requires
        0 <= k <= list.len(),
        data.len() <= list.len() * 510,
    ensures
        payload(chain_items(list, data, 0).subrange(0, k)) == data.subrange(0, chunk_start(data, k)) + zeros(
            k * 510 - chunk_start(data, k),
        ),
    decreases k,
{
    let items = chain_items(list, data, 0);
    if k == 0 {
        assert(items.subrange(0, 0) =~= Seq::<(u16, Seq<u8>)>::empty());
        assert(data.subrange(0, 0) + zeros(0) =~= Seq::<u8>::empty());
    } else {
        lemma_chain_payload(list, data, k - 1);
        lemma_chain_block_len(list, data, k - 1);
        assert(items.subrange(0, k).drop_last() =~= items.subrange(0, k - 1));
        assert(items.subrange(0, k).last() == (list[k - 1], chain_block(list, data, k - 1)));
        assert((k - 1) * 510 + 510 == k * 510) by (nonlinear_arith);
        let a = chunk_start(data, k - 1);
        let b = chunk_start(data, k);
        assert((k - 1) * 510 - a > 0 ==> a == data.len() && b == data.len());
        assert((data.subrange(0, a) + zeros((k - 1) * 510 - a)) + (data.subrange(a, b) + zeros(510 - (b - a)))
            =~= data.subrange(0, b) + zeros(k * 510 - b));
    }
}

/// The runs lie apart, in the order of the blocks.
pub open spec fn spans_apart(spans: Seq<(int, int)>) -> bool {
    forall|i: int, j: int| 0 <= i < j < spans.len() ==> (#[trigger] spans[i]).1 <= (#[trigger] spans[j]).0
}

pub proof fn lemma_spans_from_apart(bits: Seq<bool>, i: int, open: Option<int>)
    requires
        0 <= i <= bits.len(),
        open matches Some(s) ==> 0 <= s < i && forall|x: int| s <= x < i ==> !#[trigger] bits[x],
    ensures
        spans_apart(spans_from(bits, i, open)),
        forall|k: int|
            0 <= k < spans_from(bits, i, open).len() ==> (#[trigger] spans_from(bits, i, open)[k]).0 >= (match open {
                Some(s) => s,
                None => i,
            }) && forall|x: int|
                spans_from(bits, i, open)[k].0 <= x < spans_from(bits, i, open)[k].1 ==> !#[trigger] bits[x],
    decreases bits.len() - i,
{
    if i < bits.len() {
        match open {
            None => {
                if !bits[i] {
                    lemma_spans_from_apart(bits, i + 1, Some(i));
                } else {
                    lemma_spans_from_apart(bits, i + 1, None);
                }
            },
            Some(s) => {
                if bits[i] {
                    lemma_spans_from_apart(bits, i + 1, None);
                    let rest = spans_from(bits, i + 1, None);
                    let all = seq![(s, i)] + rest;
                    assert forall|a: int, b: int| 0 <= a < b < all.len() implies (#[trigger] all[a]).1 <= (
                    #[trigger] all[b]).0 by {
                        assert(all[b] == rest[b - 1]);
                        if a > 0 {
                            assert(all[a] == rest[a - 1]);
                        }
                    }
                    assert forall|k: int| 0 <= k < all.len() implies (#[trigger] all[k]).0 >= s && forall|x: int|
                        all[k].0 <= x < all[k].1 ==> !#[trigger] bits[x] by {
                        if k > 0 {
                            assert(all[k] == rest[k - 1]);
                        }
                    }
                } else {
                    lemma_spans_from_apart(bits, i + 1, open);
                }
            },
        }
    }
}

/// The blocks are blocks of the runs `spans`, or of `got`.
pub open spec fn drawn_from(list: Seq<u16>, spans: Seq<(int, int)>, got: Seq<u16>) -> bool {
    forall|i: int|
        0 <= i < list.len() ==> got.contains(#[trigger] list[i]) || exists|k: int|
            0 <= k < spans.len() && (#[trigger] spans[k]).0 <= list[i] < spans[k].1
}

/// No block of `got` lies in a run.
pub open spec fn outside_spans(got: Seq<u16>, spans: Seq<(int, int)>) -> bool {
    forall|i: int, k: int|
        0 <= i < got.len() && 0 <= k < spans.len() ==> !((#[trigger] spans[k]).0 <= (#[trigger] got[i]) < spans[k].1)
}

/// Blocks that are taken from runs that lie apart are no block twice, and
/// each is a block of one of the runs.
pub proof fn lemma_taken_distinct(bits: Seq<bool>, spans: Seq<(int, int)>, want: int, count: int, got: Seq<u16>)
    requires
        spans_valid(spans, 65535),
        spans_apart(spans),
        distinct(got),
        outside_spans(got, spans),
        taken(bits, spans, want, count, got).0 is Ok,
    ensures
        distinct(taken(bits, spans, want, count, got).0.unwrap()),
        drawn_from(taken(bits, spans, want, count, got).0.unwrap(), spans, got),
        taken(bits, spans, want, count, got).0.unwrap().len() >= got.len(),
        taken(bits, spans, want, count, got).0.unwrap().subrange(0, got.len() as int) == got,
        count >= 0 ==> taken(bits, spans, want, count, got).0.unwrap().len() == got.len() + count,
        taken(bits, spans, want, count, got).1.len() == bits.len(),
        forall|x: int| 0 <= x < bits.len() && bits[x] ==> #[trigger] taken(bits, spans, want, count, got).1[x],
    decreases spans.len(),
{
    if count <= 0 {
        assert(got.subrange(0, got.len() as int) =~= got);
        assert forall|i: int| 0 <= i < got.len() implies got.contains(#[trigger] got[i]) by {}
    } else {
        let best = best_of(spans, want, spans.len() as int);
        lemma_best_of_range(spans, want, spans.len() as int);
        let span = spans[best];
        assert(0 <= span.0 < span.1 <= 65535);
        let take = if span.1 - span.0 < count { span.1 - span.0 } else { count };
        let more = numbers(span.0, span.0 + take);
        let got2 = got + more;
        let rest = spans.remove(best);
        let bits2 = marked(bits, span.0, span.0 + take);
        assert forall|i: int, j: int| 0 <= i < j < got2.len() implies got2[i] != got2[j] by {
            if j < got.len() {
            } else if i < got.len() {
                assert(!(spans[best].0 <= got[i] < spans[best].1));
                assert(got2[j] == (span.0 + (j - got.len())) as u16);
            } else {
                assert(got2[i] == (span.0 + (i - got.len())) as u16);
                assert(got2[j] == (span.0 + (j - got.len())) as u16);
            }
        }
        assert forall|k: int| 0 <= k < rest.len() implies 0 <= (#[trigger] rest[k]).0 < rest[k].1 <= 65535 by {
            if k < best {
                assert(rest[k] == spans[k]);
            } else {
                assert(rest[k] == spans[k + 1]);
            }
        }
        assert forall|a: int, b: int| 0 <= a < b < rest.len() implies (#[trigger] rest[a]).1 <= (#[trigger] rest[b]).0 by {
            let a2 = if a < best { a } else { a + 1 };
            let b2 = if b < best { b } else { b + 1 };
            assert(rest[a] == spans[a2] && rest[b] == spans[b2]);
        }
        assert forall|i: int, k: int| 0 <= i < got2.len() && 0 <= k < rest.len() implies !((#[trigger] rest[k]).0 <= (
        #[trigger] got2[i]) < rest[k].1) by {
            let k2 = if k < best { k } else { k + 1 };
            assert(rest[k] == spans[k2]);
            if i < got.len() {
                assert(!(spans[k2].0 <= got[i] < spans[k2].1));
            } else {
                assert(got2[i] == (span.0 + (i - got.len())) as u16);
                if k2 < best {
                    assert(spans[k2].1 <= spans[best].0);
                } else {
                    assert(spans[best].1 <= spans[k2].0);
                }
            }
        }
        lemma_taken_distinct(bits2, rest, want, count - take, got2);
        let out = taken(bits, spans, want, count, got).0.unwrap();
        assert(out == taken(bits2, rest, want, count - take, got2).0.unwrap());
        assert(out.subrange(0, got.len() as int) =~= got2.subrange(0, got.len() as int));
        assert(got2.subrange(0, got.len() as int) =~= got);
        assert forall|i: int| 0 <= i < out.len() implies got.contains(#[trigger] out[i]) || exists|k: int|
            0 <= k < spans.len() && (#[trigger] spans[k]).0 <= out[i] < spans[k].1 by {
            if got2.contains(out[i]) {
                let j = choose|j: int| 0 <= j < got2.len() && got2[j] == out[i];
                if j < got.len() {
                    assert(got[j] == out[i]);
                } else {
                    assert(got2[j] == (span.0 + (j - got.len())) as u16);
                    assert(spans[best].0 <= out[i] < spans[best].1);
                }
            } else {
                let k = choose|k: int| 0 <= k < rest.len() && (#[trigger] rest[k]).0 <= out[i] < rest[k].1;
                let k2 = if k < best { k } else { k + 1 };
                assert(rest[k] == spans[k2]);
                assert(spans[k2].0 <= out[i] < spans[k2].1);
            }
        }
    }
}

/// The blocks of a chain that can be followed are no block 0.
pub proof fn lemma_chain_nonzero(c: Seq<SectorState>, size: int, block: u16, seen: Seq<u16>, fuel: nat)
    requires
        chain(c, size, block, seen, fuel) is Ok,
    ensures
        nonzero(chain_blocks(chain(c, size, block, seen, fuel).unwrap())),
    decreases fuel,
{
    if block != 0 {
        let bytes = read_blocks_spec(c, size, block as int, 1).unwrap();
        lemma_chain_nonzero(c, size, word_at(bytes, 0), seen.push(block), (fuel - 1) as nat);
        let rest = chain(c, size, word_at(bytes, 0), seen.push(block), (fuel - 1) as nat).unwrap();
        let all = chain(c, size, block, seen, fuel).unwrap();
        assert forall|i: int| 0 <= i < chain_blocks(all).len() implies #[trigger] chain_blocks(all)[i] != 0 by {
            if i > 0 {
                assert(all[i] == rest[i - 1]);
                assert(chain_blocks(rest)[i - 1] != 0);
            }
        }
    }
}

/// Clearing the flags of blocks leaves the flag of a block that is none of
/// them as it was.
pub proof fn lemma_cleared_keeps(bits: Seq<bool>, blocks: Seq<u16>, k: int, x: int)
    requires
        0 <= k <= blocks.len(),
        0 <= x < bits.len(),
        forall|i: int| 0 <= i < blocks.len() ==> #[trigger] blocks[i] != x,
    ensures
        cleared(bits, blocks, k).1.len() == bits.len(),
        cleared(bits, blocks, k).1[x] == bits[x],
    decreases k,
{
    if k > 0 {
        lemma_cleared_keeps(bits, blocks, k - 1, x);
        assert(blocks[k - 1] != x);
    }
}

pub proof fn lemma_named_slot_none(ufd: Seq<EntryView>, name: Seq<char>, from: int)
    requires
        0 <= from,
    ensures
        named_slot(ufd, name, from) is None <==> (forall|i: int| from <= i < ufd.len() ==> (#[trigger] ufd[i]).name
            != Some(name)),
    decreases ufd.len() - from,
{
    if from < ufd.len() {
        lemma_named_slot_none(ufd, name, from + 1);
        if ufd[from].name != Some(name) && named_slot(ufd, name, from + 1) is None {
            assert forall|i: int| from <= i < ufd.len() implies (#[trigger] ufd[i]).name != Some(name) by {}
        }
    }
}

pub proof fn lemma_named_slot_at(ufd: Seq<EntryView>, name: Seq<char>, from: int, slot: int)
    requires
        0 <= from <= slot < ufd.len(),
        ufd[slot].name == Some(name),
        forall|i: int| from <= i < slot ==> (#[trigger] ufd[i]).name != Some(name),
    ensures
        named_slot(ufd, name, from) == Some(slot),
    decreases slot - from,
{
    if from < slot {
        assert(ufd[from].name != Some(name));
        lemma_named_slot_at(ufd, name, from + 1, slot);
    }
}

pub proof fn lemma_first_free(ufd: Seq<EntryView>, from: int)
    requires
        0 <= from,
    ensures
        first_free(ufd, from) matches Some(i) ==> from <= i < ufd.len() && ufd[i].name is None,
    decreases ufd.len() - from,
{
    if from < ufd.len() && ufd[from].name is Some {
        lemma_first_free(ufd, from + 1);
    }
}

/// Blocks that are taken are no block twice and no block 0, where block 0
/// is marked used; and no flag that is set is cleared.
pub proof fn lemma_allocated(bits: Seq<bool>, want: int)
    requires
        0 < bits.len() <= 65535,
        bits[0],
        0 <= want,
        allocated(bits, want).0 is Ok,
    ensures
        distinct(allocated(bits, want).0.unwrap()),
        nonzero(allocated(bits, want).0.unwrap()),
        allocated(bits, want).0.unwrap().len() == want,
        allocated(bits, want).1.len() == bits.len(),
        allocated(bits, want).1[0],
{
    let spans = free_spans(bits);
    lemma_free_spans_valid(bits);
    lemma_spans_from_apart(bits, 0, None);
    lemma_taken_distinct(bits, spans, want, want, Seq::empty());
    let list = allocated(bits, want).0.unwrap();
    assert forall|i: int| 0 <= i < list.len() implies #[trigger] list[i] != 0 by {
        assert(!Seq::<u16>::empty().contains(list[i]));
        let k = choose|k: int| 0 <= k < spans.len() && (#[trigger] spans[k]).0 <= list[i] < spans[k].1;
        if list[i] == 0 {
            assert(!bits[0]);
        }
    }
    assert(allocated(bits, want).1[0]);
}

pub proof fn lemma_taken_marks(bits: Seq<bool>, want: int)
    requires
        0 < bits.len() <= 65535,
        bits[0],
    ensures
        allocated(bits, want).1.len() == bits.len(),
        allocated(bits, want).1[0],
{
    lemma_taken_keeps(bits, free_spans(bits), want, want, Seq::empty());
}

proof fn lemma_taken_keeps(bits: Seq<bool>, spans: Seq<(int, int)>, want: int, count: int, got: Seq<u16>)
    ensures
        taken(bits, spans, want, count, got).1.len() == bits.len(),
        forall|x: int| 0 <= x < bits.len() && bits[x] ==> #[trigger] taken(bits, spans, want, count, got).1[x],
    decreases spans.len(),
{
    if count > 0 && spans.len() > 0 {
        let best = best_of(spans, want, spans.len() as int);
        if 0 <= best < spans.len() {
            let span = spans[best];
            let take = if span.1 - span.0 < count { span.1 - span.0 } else { count };
            lemma_taken_keeps(
                marked(bits, span.0, span.0 + take),
                spans.remove(best),
                want,
                count - take,
                got + numbers(span.0, span.0 + take),
            );
        }
    }
}

/// A file that was written lies in a chain of as many blocks as its entry
/// says, which ends at the block that the entry names as the last, whose
/// link is 0; and it reads back as it was written, filled up with zeros to
/// 510 bytes for each block. This holds on a device whose sectors go into
/// a block, on a volume that marks block 0 used and that is left without a
/// file of that name once the first file of that name is deleted.
pub proof fn lemma_written_file_chain(
    v: VolumeView,
    contents: Seq<SectorState>,
    size: int,
    name: Seq<char>,
    data: Seq<u8>,
    date: Date,
)
    requires
        block_aligned(size),
        0 < v.bitmap.len() <= 65535,
        v.bitmap[0],
        named_slot(delete_outcome(v, contents, size, name).1.ufd, name, 0) is None,
        write_file_outcome(v, contents, size, name, data, date).0 is Ok,
    ensures
        ({
            let out = write_file_outcome(v, contents, size, name, data, date);
            let whole = data + zeros(blocks_for(data.len() as int) * 510 - data.len());
            &&& named_slot(out.1.ufd, name, 0) matches Some(slot) && 0 <= slot < out.1.ufd.len() && (chain_from(
                out.2,
                size,
                out.1.ufd[slot].first_block as u16,
            ) matches Ok(items) && items.len() == out.1.ufd[slot].length && payload(items) == whole && (items.len()
                > 0 ==> items.last().0 == out.1.ufd[slot].last_block && word_at(items.last().1, 0) == 0))
            &&& read_file_outcome(out.1, out.2, size, name) == Ok::<Seq<u8>, Error>(whole)
        }),
{
    let d = delete_outcome(v, contents, size, name);
    let s = slot_outcome(d.1, d.2, size);
    let slot = s.0.unwrap();
    let blocks = blocks_for(data.len() as int);
    let a = allocated(s.1.bitmap, blocks);
    let list = a.0.unwrap();
    // Block 0 stays marked through the delete and the slot.
    assert(d.1.bitmap.len() == v.bitmap.len() && d.1.bitmap[0]) by {
        match named_slot(v.ufd, name, 0) {
            None => {},
            Some(i) => match chain_from(contents, size, v.ufd[i].first_block as u16) {
                Err(_) => {},
                Ok(found) => {
                    lemma_chain_nonzero(contents, size, v.ufd[i].first_block as u16, Seq::empty(), chain_limit());
                    lemma_cleared_keeps(v.bitmap, chain_blocks(found), found.len() as int, 0);
                },
            },
        }
    }
    lemma_taken_marks(d.1.bitmap, 1);
    assert(s.1.bitmap.len() == v.bitmap.len() && s.1.bitmap[0]);
    lemma_allocated(s.1.bitmap, blocks);
    // The slot is the one entry of that name.
    lemma_named_slot_none(d.1.ufd, name, 0);
    lemma_first_free(d.1.ufd, 0);
    let v2 = VolumeView {
        bitmap: a.1,
        ufd: s.1.ufd.update(slot, file_entry(name, date, list, blocks as usize)),
        ..s.1
    };
    assert(0 <= slot < s.1.ufd.len());
    assert forall|i: int| 0 <= i < slot implies (#[trigger] v2.ufd[i]).name != Some(name) by {
        if i < d.1.ufd.len() {
            assert(s.1.ufd[i] == d.1.ufd[i]);
            assert(d.1.ufd[i].name != Some(name));
        }
    }
    lemma_named_slot_at(v2.ufd, name, 0, slot);
    // The chain reads as it was written.
    let p = persisted(v2, s.2, size);
    let wc = chain_written(p.2, size, list, data, list.len() as int);
    let out = write_file_outcome(v, contents, size, name, data, date);
    assert(out.1 == v2 && out.2 == wc.1);
    assert forall|i: int| 0 <= i < list.len() implies #[trigger] read_blocks_spec(wc.1, size, list[i] as int, 1)
        == Ok::<Seq<u8>, Error>(chain_block(list, data, i)) by {
        lemma_chain_blocks_read(p.2, size, list, data, list.len() as int, i);
    }
    lemma_chain_follows(wc.1, size, list, data, 0);
    assert(list.subrange(0, 0) =~= Seq::<u16>::empty());
    let items = chain_items(list, data, 0);
    assert(data.len() <= list.len() * 510);
    lemma_chain_payload(list, data, list.len() as int);
    assert(items.subrange(0, list.len() as int) =~= items);
    assert(list.len() * 510 >= data.len() ==> chunk_start(data, list.len() as int) == data.len());
    assert(data.subrange(0, data.len() as int) =~= data);
    if list.len() > 0 {
        lemma_chain_block_len(list, data, list.len() - 1);
    }
}

/// A call that changes a volume: writing a file on some day, deleting
/// one, or giving one another name.
pub enum Call {
    Write { name: Seq<char>, data: Seq<u8>, date: Date },
    Delete { name: Seq<char> },
    Rename { src: Seq<char>, dest: Seq<char> },
}

/// The volume and the sectors after a call, whatever it answered.
pub open spec fn after_call(v: VolumeView, contents: Seq<SectorState>, size: int, call: Call) -> (
    VolumeView,
    Seq<SectorState>,
) {
    match call {
        Call::Write { name, data, date } => {
            let out = write_file_outcome(v, contents, size, name, data, date);
            (out.1, out.2)
        },
        Call::Delete { name } => {
            let out = delete_outcome(v, contents, size, name);
            (out.1, out.2)
        },
        Call::Rename { src, dest } => {
            let out = super::volume::move_outcome(v, contents, size, src, dest);
            (out.1, out.2)
        },
    }
}

/// The volume and the sectors after the calls, one after the other.
pub open spec fn after_calls(v: VolumeView, contents: Seq<SectorState>, size: int, calls: Seq<Call>) -> (
    VolumeView,
    Seq<SectorState>,
)
    decreases calls.len(),
{
    if calls.len() == 0 {
        (v, contents)
    } else {
        let before = after_calls(v, contents, size, calls.drop_last());
        after_call(before.0, before.1, size, calls.last())
    }
}

/// Blocks that the bitmap shows as free.
pub open spec fn free_of(v: VolumeView) -> int {
    super::volume::clear_flags(v.bitmap)
}

/// Blocks that the bitmap shows as in use.
pub open spec fn used_of(v: VolumeView) -> int {
    v.bitmap.len() - super::volume::clear_flags(v.bitmap)
}

proof fn lemma_cleared_len(bits: Seq<bool>, blocks: Seq<u16>, k: int)
    ensures
        cleared(bits, blocks, k).1.len() == bits.len(),
    decreases k,
{
    if k > 0 {
        lemma_cleared_len(bits, blocks, k - 1);
    }
}

/// Deleting a file leaves the bitmap as long as it was, whatever the
/// answer.
pub proof fn lemma_delete_length(v: VolumeView, contents: Seq<SectorState>, size: int, name: Seq<char>)
    ensures
        delete_outcome(v, contents, size, name).1.bitmap.len() == v.bitmap.len(),
{
    match named_slot(v.ufd, name, 0) {
        None => {},
        Some(i) => match chain_from(contents, size, v.ufd[i].first_block as u16) {
            Err(e) => {},
            Ok(list) => {
                lemma_cleared_len(v.bitmap, chain_blocks(list), list.len() as int);
            },
        },
    }
}

/// Writing a file leaves the bitmap as long as it was, whatever the
/// answer.
pub proof fn lemma_write_length(
    v: VolumeView,
    contents: Seq<SectorState>,
    size: int,
    name: Seq<char>,
    data: Seq<u8>,
    date: Date,
)
    ensures
        write_file_outcome(v, contents, size, name, data, date).1.bitmap.len() == v.bitmap.len(),
{
    let d = delete_outcome(v, contents, size, name);
    lemma_delete_length(v, contents, size, name);
    let s = slot_outcome(d.1, d.2, size);
    lemma_taken_keeps(d.1.bitmap, free_spans(d.1.bitmap), 1, 1, Seq::empty());
    assert(s.1.bitmap.len() == v.bitmap.len());
    let blocks = blocks_for(data.len() as int);
    lemma_taken_keeps(s.1.bitmap, free_spans(s.1.bitmap), blocks, blocks, Seq::empty());
}

/// Giving a file another name leaves the bitmap as long as it was,
/// whatever the answer.
pub proof fn lemma_rename_length(v: VolumeView, contents: Seq<SectorState>, size: int, src: Seq<char>, dest: Seq<char>)
    ensures
        super::volume::move_outcome(v, contents, size, src, dest).1.bitmap.len() == v.bitmap.len(),
{
    lemma_delete_length(v, contents, size, dest);
}

/// Whatever files are written, deleted and given other names, and whatever
/// the calls answer, the bitmap stays as long as it was, so that free and
/// used blocks together stay what they were.
pub proof fn lemma_calls_keep(v: VolumeView, contents: Seq<SectorState>, size: int, calls: Seq<Call>)
    ensures
        ({
            let after = after_calls(v, contents, size, calls).0;
            &&& after.bitmap.len() == v.bitmap.len()
            &&& free_of(after) + used_of(after) == v.bitmap.len()
        }),
    decreases calls.len(),
{
    if calls.len() > 0 {
        lemma_calls_keep(v, contents, size, calls.drop_last());
        let before = after_calls(v, contents, size, calls.drop_last());
        match calls.last() {
            Call::Write { name, data, date } => {
                lemma_write_length(before.0, before.1, size, name, data, date);
            },
            Call::Delete { name } => {
                lemma_delete_length(before.0, before.1, size, name);
            },
            Call::Rename { src, dest } => {
                lemma_rename_length(before.0, before.1, size, src, dest);
            },
        }
    }
}

/// On a volume that was just made, and after whatever files were then
/// written, deleted and given other names, free and used blocks together
/// are the blocks of the device.
pub proof fn lemma_total_after_calls(contents: Seq<SectorState>, size: int, calls: Seq<Call>)
    requires
        super::volume::mkfs_outcome(contents, size) is Ok,
    ensures
        ({
            let made = super::volume::mkfs_outcome(contents, size).unwrap();
            let after = after_calls(made.0, made.1, size, calls).0;
            free_of(after) + used_of(after) == super::volume::device_blocks(contents, size)
        }),
{
    let blocks = super::volume::device_blocks(contents, size);
    let made = super::volume::mkfs_outcome(contents, size).unwrap();
    assert(blocks >= 0) by {
        if blocks < 0 {
            assert(super::volume::formatted(blocks).bitmap_block_list.len() + super::volume::formatted(
                blocks,
            ).ufd_block_list.len() + 3 > blocks);
        }
    }
    assert(made.0.bitmap.len() == blocks);
    lemma_calls_keep(made.0, made.1, size, calls);
}

/// On every volume that can be worked on, free and used blocks together
/// are the blocks of the device.
pub proof fn lemma_used_and_free<B: crate::block::BlockDevice>(fs: super::volume::XxdpFs<B>)
    requires
        fs.wf(),
    ensures
        crate::fs::FileSystem::free_spec(&fs) + crate::fs::FileSystem::used_spec(&fs) == fs.image.contents().len()
            * fs.image.sector_size_spec() / 512,
        free_of(fs.view()) == crate::fs::FileSystem::free_spec(&fs),
        used_of(fs.view()) == crate::fs::FileSystem::used_spec(&fs),
{
}

} // verus!
