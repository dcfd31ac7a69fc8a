use vstd::prelude::*;
use crate::block::laws::{block_aligned, lemma_read_blocks_join, lemma_read_other_blocks, lemma_read_written_blocks};
use crate::block::{read_blocks_spec, write_blocks_spec, SectorState};
use crate::error::Error;
use crate::date::Date;
use super::volume::{
    blocks_for, bulk_outcome, fill_outcome, first_in, first_match, flush_outcome, new_writer, read_file_outcome,
    satisfies, write_file_outcome, write_outcome, lemma_first_in, Query,
};
use super::volume::{
    allocated, coalesced, create_outcome, delete_outcome, deleted, dir_kind_length, dir_total_length, dir_wf,
    empty_space, file_named, lemma_allocated_wf, lemma_first_match, lemma_released_wf, lemma_split_wf,
    place_outcome, released, rename_outcome, split_outcome, with_entries,
};
use super::{kind_length, segment_wf, total_length, EntryKind, EntryView, SegmentView};

verus! {

/// No two entries that stand for free blocks lie side by side.
pub open spec fn compact(entries: Seq<EntryView>) -> bool {
    forall|i: int| 0 < i < entries.len() ==> !#[trigger] both_empty(entries, i)
}

/// Entry `i` and the entry before it both stand for free blocks.
pub open spec fn both_empty(entries: Seq<EntryView>, i: int) -> bool {
    entries[i - 1].kind == EntryKind::Empty && entries[i].kind == EntryKind::Empty
}

/// In no segment do two entries for free blocks lie side by side.
pub open spec fn dir_compact(dir: Seq<SegmentView>) -> bool {
    forall|s: int| 0 <= s < dir.len() ==> compact(#[trigger] dir[s].entries)
}

/// The blocks of the free entries and the blocks of the other entries are
/// the blocks of all entries.
pub proof fn lemma_kinds_total(entries: Seq<EntryView>, kind: EntryKind)
    ensures
        kind_length(entries, kind, true) + kind_length(entries, kind, false) == total_length(entries),
    decreases entries.len(),
{
    if entries.len() > 0 {
        lemma_kinds_total(entries.drop_last(), kind);
    }
}

/// Free blocks and used blocks together are the blocks that the entries of
/// the directory cover.
pub proof fn lemma_used_and_free(dir: Seq<SegmentView>)
    ensures
        dir_kind_length(dir, EntryKind::Empty, true) + dir_kind_length(dir, EntryKind::Empty, false)
            == dir_total_length(dir),
    decreases dir.len(),
{
    if dir.len() > 0 {
        lemma_used_and_free(dir.drop_last());
        lemma_kinds_total(dir.last().entries, EntryKind::Empty);
    }
}

pub proof fn lemma_dir_total_update(dir: Seq<SegmentView>, s: int, seg: SegmentView)
    requires
        0 <= s < dir.len(),
    ensures
        dir_total_length(dir.update(s, seg)) == dir_total_length(dir) - total_length(dir[s].entries) + total_length(
            seg.entries,
        ),
    decreases dir.len(),
{
    if s == dir.len() - 1 {
        assert(dir.update(s, seg).drop_last() =~= dir.drop_last());
    } else {
        lemma_dir_total_update(dir.drop_last(), s, seg);
        assert(dir.update(s, seg).drop_last() =~= dir.drop_last().update(s, seg));
    }
}

pub proof fn lemma_dir_total_insert(dir: Seq<SegmentView>, s: int, seg: SegmentView)
    requires
        0 <= s <= dir.len(),
    ensures
        dir_total_length(dir.insert(s, seg)) == dir_total_length(dir) + total_length(seg.entries),
    decreases dir.len(),
{
    if s == dir.len() {
        assert(dir.insert(s, seg).drop_last() =~= dir);
    } else {
        lemma_dir_total_insert(dir.drop_last(), s, seg);
        assert(dir.insert(s, seg).drop_last() =~= dir.drop_last().insert(s, seg));
    }
}

/// Deleting a file leaves the blocks that the directory covers as they
/// were, and leaves no two free entries side by side where there were none.
pub proof fn lemma_delete_keeps(dir: Seq<SegmentView>, contents: Seq<SectorState>, size: int, name: Seq<char>)
    requires
        dir_wf(dir),
    ensures
        dir_wf(delete_outcome(dir, contents, size, name).1),
        dir_total_length(delete_outcome(dir, contents, size, name).1) == dir_total_length(dir),
        dir_compact(dir) ==> dir_compact(delete_outcome(dir, contents, size, name).1),
{
    let want = Query::File(name);
    lemma_first_match(dir, want, 0);
    match file_named(dir, name) {
        None => {},
        Some((s, e)) => {
            let seg = dir[s];
            let after = with_entries(seg, released(seg.entries, e));
            let d = dir.update(s, after);
            assert(segment_wf(seg));
            lemma_released_wf(seg, e);
            lemma_dir_total_update(dir, s, after);
            assert forall|i: int| 0 <= i < d.len() implies segment_wf(#[trigger] d[i]) by {
                if i != s {
                    assert(segment_wf(dir[i]));
                }
            }
            if dir_compact(dir) {
                assert(compact(dir[s].entries));
                lemma_released_compact(seg.entries, e);
                assert forall|i: int| 0 <= i < d.len() implies compact(#[trigger] d[i].entries) by {
                    if i != s {
                        assert(compact(dir[i].entries));
                    }
                }
            }
        },
    }
}

/// Making two free entries one leaves no two free entries side by side
/// where the only ones were these two.
proof fn lemma_coalesced_compact(entries: Seq<EntryView>, i: int)
    requires
        forall|j: int| 0 < j < entries.len() && j != i + 1 && j != i ==> !#[trigger] both_empty(entries, j),
        0 <= i < entries.len(),
        i + 2 < entries.len() && entries[i + 1].kind == EntryKind::Empty ==> entries[i + 2].kind != EntryKind::Empty,
    ensures
        forall|j: int| 0 < j < coalesced(entries, i).len() && j != i ==> !#[trigger] both_empty(coalesced(entries, i), j),
{
    let new = coalesced(entries, i);
    assert forall|j: int| 0 < j < new.len() && j != i implies !#[trigger] both_empty(new, j) by {
        if new.len() == entries.len() {
            if j == i + 1 {
                assert(!(entries[i].kind == EntryKind::Empty && entries[i + 1].kind == EntryKind::Empty));
            } else {
                assert(!both_empty(entries, j));
            }
        } else {
            if j < i {
                assert(!both_empty(entries, j));
            } else if j == i + 1 {
                assert(new[j] == entries[i + 2]);
            } else {
                assert(!both_empty(entries, j + 1));
                assert(new[j] == entries[j + 1] && new[j - 1] == entries[j]);
            }
        }
    }
}

/// Giving up an entry leaves no two free entries side by side where there
/// were none.
pub proof fn lemma_released_compact(entries: Seq<EntryView>, i: int)
    requires
        compact(entries),
        0 <= i < entries.len(),
    ensures
        compact(released(entries, i)),
{
    let freed = entries.update(i, EntryView { kind: EntryKind::Empty, ..entries[i] });
    assert forall|j: int| 0 < j < freed.len() && j != i + 1 && j != i implies !#[trigger] both_empty(freed, j) by {
        assert(!both_empty(entries, j));
    }
    if i + 2 < entries.len() {
        assert(!both_empty(entries, i + 2));
    }
    lemma_coalesced_compact(freed, i);
    let right = coalesced(freed, i);
    if i > 0 {
        assert forall|j: int| 0 < j < right.len() && j != i && j != i - 1 implies !#[trigger] both_empty(right, j) by {}
        if i - 1 > 0 {
            assert(!both_empty(entries, i - 1));
        }
        if i + 1 < right.len() && right[i].kind == EntryKind::Empty {
            assert(!both_empty(right, i + 1));
        }
        lemma_coalesced_compact(right, i - 1);
        let last = coalesced(right, i - 1);
        assert forall|j: int| 0 < j < last.len() implies !#[trigger] both_empty(last, j) by {
            if j == i - 1 {
                if i - 1 > 0 {
                    assert(last[j - 1] == entries[i - 2]);
                    assert(!both_empty(entries, i - 1));
                }
            }
        }
    } else {
        assert forall|j: int| 0 < j < right.len() implies !#[trigger] both_empty(right, j) by {}
    }
}

/// Giving part of a free entry to a file leaves no two free entries side by
/// side where there were none.
pub proof fn lemma_allocated_compact(entries: Seq<EntryView>, i: int, name: Seq<char>, blocks: usize, date: Date)
    requires
        compact(entries),
        0 <= i < entries.len(),
        entries[i].kind == EntryKind::Empty,
    ensures
        compact(allocated(entries, i, name, blocks, date)),
{
    let new = allocated(entries, i, name, blocks, date);
    assert forall|j: int| 0 < j < new.len() implies !#[trigger] both_empty(new, j) by {
        if j <= i {
            if j < i {
                assert(!both_empty(entries, j));
            }
        } else if j == i + 1 {
        } else if j == i + 2 {
            assert(!both_empty(entries, i + 1));
            assert(new[j] == entries[i + 1]);
        } else {
            assert(!both_empty(entries, j - 1));
            assert(new[j] == entries[j - 1] && new[j - 1] == entries[j - 2]);
        }
    }
}

/// Splitting a segment leaves the blocks that the directory covers as they
/// were, and leaves no two free entries side by side where there were none.
pub proof fn lemma_split_keeps(dir: Seq<SegmentView>, start: u16, contents: Seq<SectorState>, size: int, s: int)
    requires
        dir_wf(dir),
        0 <= s < dir.len(),
    ensures
        dir_wf(split_outcome(dir, start, contents, size, s).1),
        dir_total_length(split_outcome(dir, start, contents, size, s).1) == dir_total_length(dir),
        dir_compact(dir) ==> dir_compact(split_outcome(dir, start, contents, size, s).1),
{
    let number = dir[0].last_segment + 1;
    if dir[0].last_segment == dir[0].segments || number > u16::MAX || super::segment_block_spec(start, number as u16)
        > u16::MAX || dir.len() >= super::volume::dir_limit() {
    } else {
        let d0 = dir.update(0, SegmentView { last_segment: number as u16, ..dir[0] });
        let full = d0[s];
        let half = (full.entries.len() / 2) as int;
        let moved = full.entries.subrange(half, full.entries.len() as int);
        let end = full.data_block + total_length(full.entries);
        let fresh = SegmentView {
            segments: dir[0].segments,
            next_segment: full.next_segment,
            last_segment: number as u16,
            extra_bytes: 0,
            data_block: (end - total_length(moved)) as u16,
            entries: moved,
            block: super::segment_block_spec(start, number as u16) as u16,
            segment: number as u16,
        };
        let kept = SegmentView { next_segment: number as u16, entries: full.entries.subrange(0, half), ..full };
        let d1 = d0.update(s, kept).insert(s + 1, fresh);
        assert(d1 == split_outcome(dir, start, contents, size, s).1);
        assert(segment_wf(dir[0]));
        assert(segment_wf(dir[s]));
        assert(full.entries == dir[s].entries && full.data_block == dir[s].data_block);
        assert(segment_wf(full));
        lemma_split_wf(full, half);
        assert(segment_wf(kept));
        assert(segment_wf(fresh));
        assert forall|i: int| 0 <= i < d1.len() implies segment_wf(#[trigger] d1[i]) by {
            if i < s {
                assert(segment_wf(dir[i]));
            } else if i > s + 1 {
                assert(segment_wf(dir[i - 1]));
            }
        }
        lemma_dir_total_update(dir, 0, SegmentView { last_segment: number as u16, ..dir[0] });
        lemma_dir_total_update(d0, s, kept);
        lemma_dir_total_insert(d0.update(s, kept), s + 1, fresh);
        if dir_compact(dir) {
            assert(compact(dir[s].entries));
            assert forall|j: int| 0 < j < kept.entries.len() implies !#[trigger] both_empty(kept.entries, j) by {
                assert(!both_empty(full.entries, j));
            }
            assert forall|j: int| 0 < j < moved.len() implies !#[trigger] both_empty(moved, j) by {
                assert(!both_empty(full.entries, half + j));
            }
            assert forall|i: int| 0 <= i < d1.len() implies compact(#[trigger] d1[i].entries) by {
                if i < s {
                    assert(compact(dir[i].entries));
                } else if i > s + 1 {
                    assert(compact(dir[i - 1].entries));
                }
            }
        }
    }
}

/// Giving part of a free entry to a new file leaves the blocks that the
/// directory covers as they were, and leaves no two free entries side by
/// side where there were none.
pub proof fn lemma_place_keeps(
    dir: Seq<SegmentView>,
    contents: Seq<SectorState>,
    size: int,
    s: int,
    e: int,
    name: Seq<char>,
    blocks: usize,
    date: Date,
)
    requires
        dir_wf(dir),
        date.wf(),
        0 <= s < dir.len(),
        0 <= e < dir[s].entries.len(),
        dir[s].entries[e].kind == EntryKind::Empty,
        dir[s].entries[e].length >= blocks,
    ensures
        dir_wf(place_outcome(dir, contents, size, s, e, name, blocks, date).1),
        dir_total_length(place_outcome(dir, contents, size, s, e, name, blocks, date).1) == dir_total_length(dir),
        dir_compact(dir) ==> dir_compact(place_outcome(dir, contents, size, s, e, name, blocks, date).1),
{
    let seg = dir[s];
    let after = with_entries(seg, allocated(seg.entries, e, name, blocks, date));
    let d = dir.update(s, after);
    assert(segment_wf(seg));
    lemma_allocated_wf(seg, e, name, blocks, date);
    lemma_dir_total_update(dir, s, after);
    assert forall|i: int| 0 <= i < d.len() implies segment_wf(#[trigger] d[i]) by {
        if i != s {
            assert(segment_wf(dir[i]));
        }
    }
    if dir_compact(dir) {
        assert(compact(dir[s].entries));
        lemma_allocated_compact(seg.entries, e, name, blocks, date);
        assert forall|i: int| 0 <= i < d.len() implies compact(#[trigger] d[i].entries) by {
            if i != s {
                assert(compact(dir[i].entries));
            }
        }
    }
}

/// Making a file leaves the directory consistent and the blocks that it
/// covers as they were, so that free and used blocks together stay what
/// they were; and it leaves no two free entries side by side where there
/// were none.
pub proof fn lemma_create_keeps(
    dir: Seq<SegmentView>,
    start: u16,
    contents: Seq<SectorState>,
    size: int,
    name: Seq<char>,
    bytes: usize,
    date: Date,
)
    requires
        dir_wf(dir),
        date.wf(),
    ensures
        dir_wf(create_outcome(dir, start, contents, size, name, bytes, date).1),
        dir_total_length(create_outcome(dir, start, contents, size, name, bytes, date).1) == dir_total_length(dir),
        dir_compact(dir) ==> dir_compact(create_outcome(dir, start, contents, size, name, bytes, date).1),
{
    let blocks = super::volume::blocks_for(bytes);
    if crate::name::valid_filename(name) {
        lemma_delete_keeps(dir, contents, size, name);
        let d = delete_outcome(dir, contents, size, name);
        lemma_first_match(d.1, Query::Space(blocks), 0);
        match empty_space(d.1, blocks) {
            None => {},
            Some((s, e)) => {
                if d.1[s].entries.len() + 1 > super::max_entries_spec(d.1[s].extra_bytes) {
                    lemma_split_keeps(d.1, start, d.2, size, s);
                    let sp = split_outcome(d.1, start, d.2, size, s);
                    lemma_first_match(sp.1, Query::Space(blocks), 0);
                    if sp.0 is Ok {
                        match empty_space(sp.1, blocks) {
                            None => {},
                            Some((s2, e2)) => {
                                lemma_place_keeps(sp.1, sp.2, size, s2, e2, name, blocks, date);
                            },
                        }
                    }
                } else {
                    lemma_place_keeps(d.1, d.2, size, s, e, name, blocks, date);
                }
            },
        }
    }
}

/// Giving a file another name leaves the directory consistent and the
/// blocks that it covers as they were, and leaves no two free entries side
/// by side where there were none.
pub proof fn lemma_rename_keeps(
    dir: Seq<SegmentView>,
    contents: Seq<SectorState>,
    size: int,
    src: Seq<char>,
    dest: Seq<char>,
)
    requires
        dir_wf(dir),
    ensures
        dir_wf(rename_outcome(dir, contents, size, src, dest).1),
        dir_total_length(rename_outcome(dir, contents, size, src, dest).1) == dir_total_length(dir),
        dir_compact(dir) ==> dir_compact(rename_outcome(dir, contents, size, src, dest).1),
{
    let want = Query::File(src);
    lemma_first_match(dir, want, 0);
    if crate::name::valid_filename(dest) {
        match file_named(dir, src) {
            None => {},
            Some((s, e)) => {
                let named = EntryView { name: dest, ..dir[s].entries[e] };
                let entries = dir[s].entries.update(e, named);
                let seg = with_entries(dir[s], entries);
                let d = dir.update(s, seg);
                super::volume::lemma_total_update(dir[s].entries, e, named);
                lemma_dir_total_update(dir, s, seg);
                assert(segment_wf(dir[s]));
                assert forall|i: int| 0 < i < entries.len() implies #[trigger] super::follows(entries, i) by {
                    assert(super::follows(dir[s].entries, i));
                }
                assert(segment_wf(seg));
                assert forall|i: int| 0 <= i < d.len() implies segment_wf(#[trigger] d[i]) by {
                    if i != s {
                        assert(segment_wf(dir[i]));
                    }
                }
                if dir_compact(dir) {
                    assert(compact(dir[s].entries));
                    assert forall|i: int| 0 < i < entries.len() implies !#[trigger] both_empty(entries, i) by {
                        assert(!both_empty(dir[s].entries, i));
                    }
                    assert forall|i: int| 0 <= i < d.len() implies compact(#[trigger] d[i].entries) by {
                        if i != s {
                            assert(compact(dir[i].entries));
                        }
                    }
                }
            },
        }
    }
}

/// A call that changes a volume: writing a file on some day, deleting
/// one, or giving one another name.
pub enum Call {
    Write { name: Seq<char>, data: Seq<u8>, date: Date },
    Delete { name: Seq<char> },
    Rename { src: Seq<char>, dest: Seq<char> },
}

/// The directory and the sectors after a call, whatever it answered.
pub open spec fn after_call(dir: Seq<SegmentView>, start: u16, contents: Seq<SectorState>, size: int, call: Call) -> (
    Seq<SegmentView>,
    Seq<SectorState>,
) {
    match call {
        Call::Write { name, data, date } => {
            let out = write_file_outcome(dir, start, contents, size, name, data, date);
            (out.1, out.2)
        },
        Call::Delete { name } => {
            let out = delete_outcome(dir, contents, size, name);
            (out.1, out.2)
        },
        Call::Rename { src, dest } => {
            let out = super::volume::move_outcome(dir, contents, size, src, dest);
            (out.1, out.2)
        },
    }
}

/// The directory and the sectors after the calls, one after the other.
pub open spec fn after_calls(
    dir: Seq<SegmentView>,
    start: u16,
    contents: Seq<SectorState>,
    size: int,
    calls: Seq<Call>,
) -> (Seq<SegmentView>, Seq<SectorState>)
    decreases calls.len(),
{
    if calls.len() == 0 {
        (dir, contents)
    } else {
        let before = after_calls(dir, start, contents, size, calls.drop_last());
        after_call(before.0, start, before.1, size, calls.last())
    }
}

/// Every file that the calls write is dated with a day of the calendar.
pub open spec fn calls_dated(calls: Seq<Call>) -> bool {
    forall|i: int| 0 <= i < calls.len() ==> (#[trigger] calls[i] matches Call::Write { date, .. } ==> date.wf())
}

/// Whatever files are written, deleted and given other names, and whatever
/// the calls answer, the directory stays consistent and covers the blocks
/// that it covered, so that free and used blocks together stay what they
/// were; and no two free entries come to lie side by side.
pub proof fn lemma_calls_keep(dir: Seq<SegmentView>, start: u16, contents: Seq<SectorState>, size: int, calls: Seq<Call>)
    requires
        dir_wf(dir),
        calls_dated(calls),
    ensures
        ({
            let after = after_calls(dir, start, contents, size, calls).0;
            &&& dir_wf(after)
            &&& dir_total_length(after) == dir_total_length(dir)
            &&& dir_kind_length(after, EntryKind::Empty, true) + dir_kind_length(after, EntryKind::Empty, false)
                == dir_total_length(dir)
            &&& dir_compact(dir) ==> dir_compact(after)
        }),
    decreases calls.len(),
{
    if calls.len() > 0 {
        lemma_calls_keep(dir, start, contents, size, calls.drop_last());
        let before = after_calls(dir, start, contents, size, calls.drop_last());
        match calls.last() {
            Call::Write { name, data, date } => {
                lemma_create_keeps(before.0, start, before.1, size, name, data.len() as usize, date);
            },
            Call::Delete { name } => {
                lemma_delete_keeps(before.0, before.1, size, name);
            },
            Call::Rename { src, dest } => {
                lemma_rename_keeps(before.0, before.1, size, src, dest);
                lemma_delete_keeps(before.0, before.1, size, dest);
                let d = delete_outcome(before.0, before.1, size, dest);
                lemma_rename_keeps(d.1, d.2, size, src, dest);
            },
        }
    }
    lemma_used_and_free(after_calls(dir, start, contents, size, calls).0);
}

/// On a volume that was just made, and after whatever files were then
/// written, deleted and given other names, free and used blocks together
/// are the blocks of the device less the fourteen before the files, and no
/// two free entries lie side by side.
pub proof fn lemma_total_after_calls(contents: Seq<SectorState>, size: int, owner: Seq<char>, start: u16, calls: Seq<Call>)
    requires
        block_aligned(size),
        super::volume::mkfs_outcome(contents, size, owner) is Ok,
        calls_dated(calls),
    ensures
        ({
            let made = super::volume::mkfs_outcome(contents, size, owner).unwrap();
            let after = after_calls(made.1, start, made.2, size, calls).0;
            &&& dir_wf(after)
            &&& dir_kind_length(after, EntryKind::Empty, true) + dir_kind_length(after, EntryKind::Empty, false)
                == contents.len() * size / 512 - 14
            &&& dir_compact(after)
        }),
{
    let made = super::volume::mkfs_outcome(contents, size, owner).unwrap();
    lemma_mkfs_total(contents, size, owner);
    lemma_calls_keep(made.1, start, made.2, size, calls);
}

/// No entry of the directory is what is looked for.
pub open spec fn none_match(dir: Seq<SegmentView>, want: Query) -> bool {
    forall|s: int, e: int| 0 <= s < dir.len() && 0 <= e < dir[s].entries.len() ==> !satisfies(#[trigger] dir[s].entries[e], want)
}

pub proof fn lemma_first_in_none(entries: Seq<EntryView>, want: Query, from: int)
    requires
        0 <= from,
        forall|i: int| from <= i < entries.len() ==> !satisfies(#[trigger] entries[i], want),
    ensures
        first_in(entries, want, from) is None,
    decreases entries.len() - from,
{
    if from < entries.len() {
        assert(!satisfies(entries[from], want));
        lemma_first_in_none(entries, want, from + 1);
    }
}

pub proof fn lemma_first_in_at(entries: Seq<EntryView>, want: Query, from: int, e: int)
    requires
        0 <= from <= e < entries.len(),
        satisfies(entries[e], want),
        forall|i: int| from <= i < e ==> !satisfies(#[trigger] entries[i], want),
    ensures
        first_in(entries, want, from) == Some(e),
    decreases e - from,
{
    if from < e {
        assert(!satisfies(entries[from], want));
        lemma_first_in_at(entries, want, from + 1, e);
    }
}

/// Nothing is found exactly where no entry is what is looked for.
pub proof fn lemma_first_match_none(dir: Seq<SegmentView>, want: Query, from: int)
    requires
        0 <= from,
    ensures
        first_match(dir, want, from) is None <==> (forall|s: int, e: int|
            from <= s < dir.len() && 0 <= e < dir[s].entries.len() ==> !satisfies(#[trigger] dir[s].entries[e], want)),
    decreases dir.len() - from,
{
    if from < dir.len() {
        lemma_first_in(dir[from].entries, want, 0);
        lemma_first_match_none(dir, want, from + 1);
        match first_in(dir[from].entries, want, 0) {
            Some(e) => {
                assert(satisfies(dir[from].entries[e], want));
            },
            None => {
                if first_match(dir, want, from + 1) is None {
                    assert forall|s: int, e: int|
                        from <= s < dir.len() && 0 <= e < dir[s].entries.len() implies !satisfies(
                        #[trigger] dir[s].entries[e],
                        want,
                    ) by {
                        if s == from {
                            assert(!satisfies(dir[from].entries[e], want));
                        }
                    }
                }
            },
        }
    }
}

/// What is looked for is found at the one entry that is it.
pub proof fn lemma_first_match_at(dir: Seq<SegmentView>, want: Query, from: int, s: int, e: int)
    requires
        0 <= from <= s < dir.len(),
        0 <= e < dir[s].entries.len(),
        satisfies(dir[s].entries[e], want),
        forall|s2: int, e2: int|
            0 <= s2 < dir.len() && 0 <= e2 < dir[s2].entries.len() && (s2, e2) != (s, e) ==> !satisfies(
                #[trigger] dir[s2].entries[e2],
                want,
            ),
    ensures
        first_match(dir, want, from) == Some((s, e)),
    decreases s - from,
{
    if from < s {
        assert forall|i: int| 0 <= i < dir[from].entries.len() implies !satisfies(
            #[trigger] dir[from].entries[i],
            want,
        ) by {
            assert((from, i) != (s, e));
        }
        lemma_first_in_none(dir[from].entries, want, 0);
        lemma_first_match_at(dir, want, from + 1, s, e);
    } else {
        assert forall|i: int| 0 <= i < e implies !satisfies(#[trigger] dir[s].entries[i], want) by {
            assert((s, i) != (s, e));
        }
        lemma_first_in_at(dir[s].entries, want, 0, e);
    }
}

/// Splitting a segment brings no entry that is what is looked for where
/// there was none.
pub proof fn lemma_split_none(
    dir: Seq<SegmentView>,
    start: u16,
    contents: Seq<SectorState>,
    size: int,
    s: int,
    want: Query,
)
    requires
        0 <= s < dir.len(),
        none_match(dir, want),
    ensures
        none_match(split_outcome(dir, start, contents, size, s).1, want),
{
    let out = split_outcome(dir, start, contents, size, s).1;
    if out != dir {
        let half = (dir[s].entries.len() / 2) as int;
        assert forall|s2: int, e2: int| 0 <= s2 < out.len() && 0 <= e2 < out[s2].entries.len() implies !satisfies(
            #[trigger] out[s2].entries[e2],
            want,
        ) by {
            if s2 < s {
                assert(out[s2].entries == dir[s2].entries);
                assert(!satisfies(dir[s2].entries[e2], want));
            } else if s2 == s {
                assert(out[s2].entries[e2] == dir[s].entries[e2]);
                assert(!satisfies(dir[s].entries[e2], want));
            } else if s2 == s + 1 {
                assert(out[s2].entries[e2] == dir[s].entries[half + e2]);
                assert(!satisfies(dir[s].entries[half + e2], want));
            } else {
                assert(out[s2].entries == dir[s2 - 1].entries);
                assert(!satisfies(dir[s2 - 1].entries[e2], want));
            }
        }
    }
}

/// The new file is the one file of its name where there was none before.
pub proof fn lemma_place_found(
    dir: Seq<SegmentView>,
    contents: Seq<SectorState>,
    size: int,
    s: int,
    e: int,
    name: Seq<char>,
    blocks: usize,
    date: Date,
)
    requires
        0 <= s < dir.len(),
        0 <= e < dir[s].entries.len(),
        dir[s].entries[e].kind == EntryKind::Empty,
        none_match(dir, Query::File(name)),
    ensures
        file_named(place_outcome(dir, contents, size, s, e, name, blocks, date).1, name) == Some((s, e)),
        place_outcome(dir, contents, size, s, e, name, blocks, date).1[s].entries[e].length == blocks,
        place_outcome(dir, contents, size, s, e, name, blocks, date).1[s].entries[e].block == dir[s].entries[e].block,
{
    let want = Query::File(name);
    let out = place_outcome(dir, contents, size, s, e, name, blocks, date).1;
    assert forall|s2: int, e2: int|
        0 <= s2 < out.len() && 0 <= e2 < out[s2].entries.len() && (s2, e2) != (s, e) implies !satisfies(
        #[trigger] out[s2].entries[e2],
        want,
    ) by {
        if s2 != s {
            assert(out[s2].entries == dir[s2].entries);
            assert(!satisfies(dir[s2].entries[e2], want));
        } else if e2 < e {
            assert(out[s].entries[e2] == dir[s].entries[e2]);
            assert(!satisfies(dir[s].entries[e2], want));
        } else if e2 == e + 1 {
            assert(out[s].entries[e2].kind == EntryKind::Empty);
        } else {
            assert(out[s].entries[e2] == dir[s].entries[e2 - 1]);
            assert(!satisfies(dir[s].entries[e2 - 1], want));
        }
    }
    lemma_first_match_at(out, want, 0, s, e);
}

/// What a new writer has written and flushed reads back: the data, filled
/// up with zeros to whole blocks.
pub proof fn lemma_writer_roundtrip(block: usize, contents: Seq<SectorState>, size: int, data: Seq<u8>)
    requires
        block_aligned(size),
        data.len() <= usize::MAX,
        block + blocks_for(data.len() as usize) <= usize::MAX,
        write_outcome(new_writer(block, blocks_for(data.len() as usize)), contents, size, data).0 is Ok,
        ({
            let w = write_outcome(new_writer(block, blocks_for(data.len() as usize)), contents, size, data);
            flush_outcome(w.1, w.2, size).0 is Ok
        }),
    ensures
        ({
            let blocks = blocks_for(data.len() as usize);
            let w = write_outcome(new_writer(block, blocks), contents, size, data);
            let f = flush_outcome(w.1, w.2, size);
            read_blocks_spec(f.2, size, block as int, blocks as int) == Ok::<Seq<u8>, Error>(
                data + super::zeros(blocks * 512 - data.len()),
            )
        }),
{
    let len = data.len() as int;
    let blocks = blocks_for(data.len() as usize);
    let w0 = new_writer(block, blocks);
    let w = write_outcome(w0, contents, size, data);
    let f = flush_outcome(w.1, w.2, size);
    assert(blocks == (len + 511) / 512);
    assert(blocks > 0);
    assert(data.subrange(0, 0) =~= Seq::<u8>::empty());
    let first = fill_outcome(w0, contents, size, data.subrange(0, 0));
    assert(first.1.residue =~= Seq::<u8>::empty());
    assert(first.2 == contents);
    assert(data.subrange(0, len) =~= data);
    let second = bulk_outcome(first.1, contents, size, data);
    let full = len / 512;
    let rest = data.subrange(full * 512, len);
    if full > 0 {
        let wr = write_blocks_spec(contents, size, block as int, full, data.subrange(0, full * 512));
        lemma_read_written_blocks(contents, size, block as int, full, data.subrange(0, full * 512));
        assert(data.subrange(0, full * 512).subrange(0, full * 512) =~= data.subrange(0, full * 512));
        assert(second.1.residue =~= rest);
        if rest.len() > 0 {
            let padded = rest + super::zeros(512 - rest.len());
            lemma_read_written_blocks(wr.1, size, block + full, 1, padded);
            lemma_read_other_blocks(wr.1, size, block + full, 1, padded, block as int, full);
            assert(padded.subrange(0, 512) =~= padded);
            lemma_read_blocks_join(f.2, size, block as int, full, 1);
            assert(data.subrange(0, full * 512) + padded =~= data + super::zeros(blocks * 512 - len));
        } else {
            assert(data.subrange(0, full * 512) =~= data + super::zeros(blocks * 512 - len));
        }
    } else {
        assert(second.1.residue =~= data);
        let padded = data + super::zeros(512 - len);
        lemma_read_written_blocks(contents, size, block as int, 1, padded);
        assert(padded.subrange(0, 512) =~= padded);
    }
}

/// A file that was written reads back as it was written, filled up with
/// zeros to whole blocks: on a device whose sectors go into a block, and
/// in a directory that is left without a file of that name once the first
/// file of that name is deleted.
pub proof fn lemma_written_file_reads_back(
    dir: Seq<SegmentView>,
    start: u16,
    contents: Seq<SectorState>,
    size: int,
    name: Seq<char>,
    data: Seq<u8>,
    date: Date,
)
    requires
        dir_wf(dir),
        date.wf(),
        block_aligned(size),
        data.len() <= usize::MAX,
        file_named(delete_outcome(dir, contents, size, name).1, name) is None,
        write_file_outcome(dir, start, contents, size, name, data, date).0 is Ok,
    ensures
        ({
            let out = write_file_outcome(dir, start, contents, size, name, data, date);
            read_file_outcome(out.1, out.2, size, name) == Ok::<Seq<u8>, Error>(
                data + super::zeros(blocks_for(data.len() as usize) * 512 - data.len()),
            )
        }),
{
    let want = Query::File(name);
    let bytes = data.len() as usize;
    let blocks = blocks_for(bytes);
    let made = create_outcome(dir, start, contents, size, name, bytes, date);
    let d = delete_outcome(dir, contents, size, name);
    lemma_delete_keeps(dir, contents, size, name);
    lemma_first_match_none(d.1, want, 0);
    lemma_first_match(d.1, Query::Space(blocks), 0);
    let (s, e) = empty_space(d.1, blocks).unwrap();
    let (s3, e3) = made.0.unwrap();
    if d.1[s].entries.len() + 1 > super::max_entries_spec(d.1[s].extra_bytes) {
        let sp = split_outcome(d.1, start, d.2, size, s);
        lemma_split_keeps(d.1, start, d.2, size, s);
        lemma_split_none(d.1, start, d.2, size, s, want);
        lemma_first_match(sp.1, Query::Space(blocks), 0);
        let (s2, e2) = empty_space(sp.1, blocks).unwrap();
        lemma_place_found(sp.1, sp.2, size, s2, e2, name, blocks, date);
        assert(segment_wf(sp.1[s2]));
        assert(sp.1[s2].entries[e2].block + sp.1[s2].entries[e2].length <= u16::MAX);
    } else {
        lemma_place_found(d.1, d.2, size, s, e, name, blocks, date);
        assert(segment_wf(d.1[s]));
        assert(d.1[s].entries[e].block + d.1[s].entries[e].length <= u16::MAX);
    }
    let block = made.1[s3].entries[e3].block;
    lemma_writer_roundtrip(block, made.2, size, data);
}

/// The home block of a new volume names block 6 as the begin of the
/// directory.
pub proof fn lemma_home_start(owner: Seq<char>)
    requires
        super::home::home_bytes(super::home::default_home(owner)) is Ok,
    ensures
        super::home::home_bytes(super::home::default_home(owner)).unwrap().len() == 512,
        crate::bytes::word_at(super::home::home_bytes(super::home::default_home(owner)).unwrap(), 468) == 6,
{
    let home = super::home::default_home(owner);
    let hb = super::home::home_bytes(home).unwrap();
    let body = super::home::home_body(home);
    assert(body.len() == 510);
    crate::bytes::lemma_word_roundtrip(6);
    assert(hb[468] == crate::bytes::word_bytes(6)[0] && hb[469] == crate::bytes::word_bytes(6)[1]);
}

/// The words of the first segment of a new volume.
#[verifier::rlimit(80)]
#[verifier::spinoff_prover]
proof fn lemma_first_segment_bytes(blocks: int)
    requires
        14 <= blocks <= 65535,
        super::segment_bytes(first_segment(blocks)) is Ok,
    ensures
        ({
            let sb = super::segment_bytes(first_segment(blocks)).unwrap();
            &&& sb.len() == 1024
            &&& crate::bytes::word_at(sb, 0) == 4
            &&& crate::bytes::word_at(sb, 2) == 0
            &&& crate::bytes::word_at(sb, 4) == 1
            &&& crate::bytes::word_at(sb, 6) == 0
            &&& crate::bytes::word_at(sb, 8) == 14
            &&& crate::bytes::word_at(sb, 10) == 0o1000
            &&& crate::bytes::word_at(sb, 18) == blocks - 14
            &&& sb[20] == 0
            &&& sb[21] == 0
            &&& crate::bytes::word_at(sb, 22) == 0
            &&& crate::bytes::word_at(sb, 24) == 0o4000
        }),
{
    let seg = first_segment(blocks);
    let sb = super::segment_bytes(seg).unwrap();
    let e = super::empty_entry(14, (blocks - 14) as usize);
    reveal(super::entry_bytes);
    let eb = super::entry_bytes(e).unwrap();
    assert(seg.entries.drop_last() =~= Seq::<EntryView>::empty());
    assert(seg.entries.last() == e);
    assert(super::entries_bytes(Seq::<EntryView>::empty()) == Ok::<Seq<u8>, Error>(Seq::<u8>::empty()));
    assert(super::entries_bytes(seg.entries) == Ok::<Seq<u8>, Error>(Seq::<u8>::empty() + eb));
    crate::fs::xxdp::lemma_words_bytes_len(crate::name::filename_words(e.name));
    crate::fs::xxdp::lemma_words_bytes_len(Seq::<u16>::empty());
    let words = seq![4u16, 0u16, 1u16, 0u16, 14u16];
    lemma_header_words(words);
    let header = super::words_bytes(words);
    assert(eb.len() == 14);
    let status = super::status_word(EntryKind::Empty, false, false, false);
    assert(status == 0o1000);
    crate::bytes::lemma_word_roundtrip(status);
    crate::bytes::lemma_word_roundtrip((blocks - 14) as u16);
    crate::bytes::lemma_word_roundtrip(0);
    crate::bytes::lemma_word_roundtrip(super::STATUS_E_EOS);
    assert(eb[0] == crate::bytes::word_bytes(status)[0] && eb[1] == crate::bytes::word_bytes(status)[1]);
    assert(eb[8] == crate::bytes::word_bytes((blocks - 14) as u16)[0] && eb[9] == crate::bytes::word_bytes(
        (blocks - 14) as u16,
    )[1]);
    assert(eb[10] == 0 && eb[11] == 0);
    assert(eb[12] == crate::bytes::word_bytes(0)[0] && eb[13] == crate::bytes::word_bytes(0)[1]);
    assert(words[0] == 4 && words[1] == 0 && words[2] == 1 && words[3] == 0 && words[4] == 14);
    assert forall|i: int| 0 <= i < 10 implies sb[i] == header[i] by {}
    assert forall|i: int| 0 <= i < 14 implies sb[10 + i] == eb[i] by {}
    assert(sb[10] == eb[0] && sb[11] == eb[1] && sb[18] == eb[8] && sb[19] == eb[9] && sb[20] == eb[10] && sb[21]
        == eb[11] && sb[22] == eb[12] && sb[23] == eb[13]);
    assert(sb[24] == crate::bytes::word_bytes(super::STATUS_E_EOS)[0] && sb[25] == crate::bytes::word_bytes(
        super::STATUS_E_EOS,
    )[1]);
}

/// The first segment of a volume made on a device of `blocks` blocks.
pub open spec fn first_segment(blocks: int) -> SegmentView {
    super::new_segment(1, 6, core::ops::Range { start: 1, end: 4 }, core::ops::Range { start: 14, end: blocks as u16 })
}

/// The first segment of a new volume reads back as a segment with one
/// entry for the blocks from block 14 on, which no segment follows.
pub proof fn lemma_first_segment_parsed(blocks: int)
    requires
        14 <= blocks <= 65535,
        super::segment_bytes(first_segment(blocks)) is Ok,
        super::parsed_segment(1, 6, super::segment_bytes(first_segment(blocks)).unwrap()) is Ok,
    ensures
        ({
            let p = super::parsed_segment(1, 6, super::segment_bytes(first_segment(blocks)).unwrap()).unwrap();
            p.next_segment == 0 && p.entries.len() == 1 && p.entries[0].length == blocks - 14 && segment_wf(p)
        }),
{
    let sb = super::segment_bytes(first_segment(blocks)).unwrap();
    lemma_first_segment_bytes(blocks);
    reveal(super::parsed_entry);
    let first = super::parsed_entry(sb, 10, 14, 0);
    let status = crate::bytes::word_at(sb, 10);
    assert(!super::has_bit(status, super::STATUS_E_EOS) && !super::has_bit(status, super::STATUS_E_TENT)
        && super::has_bit(status, super::STATUS_E_MPTY));
    assert(super::has_bit(crate::bytes::word_at(sb, 24), super::STATUS_E_EOS));
    super::lemma_parsed_entries_step(sb, 10, 14, 0);
    super::lemma_parsed_entries_step(sb, 24, blocks as usize, 0);
    assert(first is Ok);
    let found = first.unwrap().unwrap();
    assert(found.length == blocks - 14);
    assert(super::parsed_entry(sb, 24, blocks as usize, 0) == Ok::<Option<EntryView>, Error>(None));
    assert(super::parsed_entries(sb, 24, blocks as usize, 0) == Ok::<Seq<EntryView>, Error>(Seq::empty()));
    assert(super::parsed_entries(sb, 10, 14, 0) == Ok::<Seq<EntryView>, Error>(seq![found] + Seq::empty()));
    let p = super::parsed_segment(1, 6, sb).unwrap();
    assert(p.entries =~= seq![found]);
    assert(found.block == 14 && p.data_block == 14);
    assert(found.creation_date is None);
}

/// A new volume covers the blocks from block 14 to the end of the device:
/// its free and used blocks together are the blocks of the device less
/// these fourteen, on a device whose sectors go into a block.
#[verifier::rlimit(80)]
#[verifier::spinoff_prover]
pub proof fn lemma_mkfs_total(contents: Seq<SectorState>, size: int, owner: Seq<char>)
    requires
        block_aligned(size),
        super::volume::mkfs_outcome(contents, size, owner) is Ok,
    ensures
        ({
            let dir = super::volume::mkfs_outcome(contents, size, owner).unwrap().1;
            &&& dir_total_length(dir) == contents.len() * size / 512 - 14
            &&& dir_kind_length(dir, EntryKind::Empty, true) + dir_kind_length(dir, EntryKind::Empty, false)
                == contents.len() * size / 512 - 14
            &&& dir_compact(dir)
            &&& dir_wf(dir)
        }),
{
    let blocks = contents.len() * size / 512;
    let home = super::home::default_home(owner);
    let hb = super::home::home_bytes(home).unwrap();
    let w1 = write_blocks_spec(contents, size, 1, 1, hb);
    let seg = first_segment(blocks);
    let sb = super::segment_bytes(seg).unwrap();
    let w2 = write_blocks_spec(w1.1, size, 6, 2, sb);
    lemma_home_start(owner);
    lemma_first_segment_bytes(blocks);
    lemma_read_written_blocks(contents, size, 1, 1, hb);
    lemma_read_other_blocks(w1.1, size, 6, 2, sb, 1, 1);
    lemma_read_written_blocks(w1.1, size, 6, 2, sb);
    assert(hb.subrange(0, 512) =~= hb);
    assert(sb.subrange(0, 1024) =~= sb);
    assert(read_blocks_spec(w2.1, size, 1, 1) == Ok::<Seq<u8>, Error>(hb));
    assert(read_blocks_spec(w2.1, size, 6, 2) == Ok::<Seq<u8>, Error>(sb));
    let h = super::home::parsed_home(hb).unwrap();
    assert(h.directory_start_block == 6);
    lemma_first_segment_parsed(blocks);
    let parsed = super::parsed_segment(1, 6, sb).unwrap();
    let dir = super::volume::mkfs_outcome(contents, size, owner).unwrap().1;
    assert(dir =~= seq![parsed]);
    assert(dir.drop_last() =~= Seq::<SegmentView>::empty());
    assert(dir_total_length(Seq::<SegmentView>::empty()) == 0);
    assert(parsed.entries.drop_last() =~= Seq::<EntryView>::empty());
    assert(total_length(Seq::<EntryView>::empty()) == 0);
    assert(total_length(parsed.entries) == parsed.entries[0].length);
    lemma_used_and_free(dir);
    assert forall|s: int| 0 <= s < dir.len() implies compact(#[trigger] dir[s].entries) by {}
    assert forall|s: int| 0 <= s < dir.len() implies segment_wf(#[trigger] dir[s]) by {}
}

proof fn lemma_header_words(words: Seq<u16>)
    requires
        words.len() == 5,
    ensures
        super::words_bytes(words).len() == 10,
        forall|k: int| 0 <= k < 5 ==> crate::bytes::word_at(super::words_bytes(words), 2 * k) == #[trigger] words[k],
{
    reveal_with_fuel(super::words_bytes, 6);
    crate::bytes::lemma_word_roundtrip(words[0]);
    crate::bytes::lemma_word_roundtrip(words[1]);
    crate::bytes::lemma_word_roundtrip(words[2]);
    crate::bytes::lemma_word_roundtrip(words[3]);
    crate::bytes::lemma_word_roundtrip(words[4]);
    let b = super::words_bytes(words);
    let w = |k: int| crate::bytes::word_bytes(words[k]);
    assert(b =~= w(0) + w(1) + w(2) + w(3) + w(4));
}

} // verus!
