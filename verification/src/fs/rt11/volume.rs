use vstd::prelude::*;

use core::ops::Range;
use crate::block::{read_blocks_spec, read_view, write_blocks_spec, BlockDevice, SectorState};
use crate::error::Error;
use super::home::{default_home, home_bytes, parsed_home, HomeBlock, HomeView};
use super::{entry_views, lemma_total_length_concat, lemma_total_length_prefix, new_segment};
use crate::block::BLOCK_SIZE;
use crate::date::{today, Date};
use crate::name::valid_filename;
use super::{
    follows, kind_length, lemma_prefix_total, max_entries_spec, parsed_segment, segment_block_spec, segment_bytes,
    segment_wf,
    total_length, DirEntry, DirSegment, EntryKind, EntryView, SegmentView,
};

verus! {

/// An RT-11 volume: the device, its home block and its directory.
pub struct RT11FS<B: BlockDevice> {
    pub image: B,
    pub home: HomeBlock,
    pub dir: Vec<DirSegment>,
}

/// The segments as mathematical values.
pub open spec fn segment_views(dir: Seq<DirSegment>) -> Seq<SegmentView> {
    Seq::new(dir.len(), |i: int| dir[i]@)
}

/// The directory has a segment and no more than 65535, and each of its
/// segments is consistent.
pub open spec fn dir_wf(dir: Seq<SegmentView>) -> bool {
    &&& 1 <= dir.len() <= dir_limit()
    &&& forall|i: int| 0 <= i < dir.len() ==> segment_wf(#[trigger] dir[i])
}

/// The most segments that a chain is followed for; a longer chain comes
/// back to a segment it has been at.
pub open spec fn chain_limit() -> nat {
    65535
}

/// The home block on a device with these sectors.
pub open spec fn loaded_home(contents: Seq<SectorState>, size: int) -> Result<HomeView, Error> {
    match read_blocks_spec(contents, size, 1, 1) {
        Err(e) => Err(e),
        Ok(bytes) => parsed_home(bytes),
    }
}

/// The chain of segments from segment `segment` on, on a device with these
/// sectors whose directory starts at block `start`, followed for at most
/// `fuel` segments.
pub open spec fn loaded_chain(contents: Seq<SectorState>, size: int, start: u16, segment: u16, fuel: nat) -> Result<
    Seq<SegmentView>,
    Error,
>
    decreases fuel,
{
    if fuel == 0 || segment < 1 || segment_block_spec(start, segment) > u16::MAX {
        Err(Error::Format)
    } else {
        let block = segment_block_spec(start, segment) as u16;
        match read_blocks_spec(contents, size, block as int, 2) {
            Err(e) => Err(e),
            Ok(bytes) => match parsed_segment(segment, block, bytes) {
                Err(e) => Err(e),
                Ok(seg) => if seg.next_segment == 0 {
                    Ok(seq![seg])
                } else {
                    match loaded_chain(contents, size, start, seg.next_segment, (fuel - 1) as nat) {
                        Err(e) => Err(e),
                        Ok(rest) => Ok(seq![seg] + rest),
                    }
                },
            },
        }
    }
}

/// The directory on a device with these sectors: the chain from segment 1.
pub open spec fn loaded_dir(contents: Seq<SectorState>, size: int, start: u16) -> Result<Seq<SegmentView>, Error> {
    loaded_chain(contents, size, start, 1, chain_limit())
}

/// The home block and the directory on a device with these sectors.
pub open spec fn loaded(contents: Seq<SectorState>, size: int) -> Result<(HomeView, Seq<SegmentView>), Error> {
    match loaded_home(contents, size) {
        Err(e) => Err(e),
        Ok(home) => match loaded_dir(contents, size, home.directory_start_block) {
            Err(e) => Err(e),
            Ok(dir) => Ok((home, dir)),
        },
    }
}

/// The segments found so far followed by what is still to be read.
pub open spec fn segments_then(found: Seq<SegmentView>, rest: Result<Seq<SegmentView>, Error>) -> Result<
    Seq<SegmentView>,
    Error,
> {
    match rest {
        Err(e) => Err(e),
        Ok(more) => Ok(found + more),
    }
}

/// What is looked for in the directory.
pub enum Wanted {
    /// Free space of at least so many blocks.
    Space(usize),
    /// The file with this name.
    File(String),
}

/// What is looked for in the directory, as a mathematical value.
pub enum Query {
    Space(usize),
    File(Seq<char>),
}

impl View for Wanted {
    type V = Query;

    open spec fn view(&self) -> Query {
        match self {
            Wanted::Space(blocks) => Query::Space(*blocks),
            Wanted::File(name) => Query::File(name@),
        }
    }
}

/// The entry is what is looked for.
pub open spec fn satisfies(e: EntryView, want: Query) -> bool {
    match want {
        Query::Space(blocks) => e.kind == EntryKind::Empty && e.length >= blocks,
        Query::File(name) => e.kind == EntryKind::Permanent && e.name == name,
    }
}

/// The first entry from entry `from` on that is what is looked for.
pub open spec fn first_in(entries: Seq<EntryView>, want: Query, from: int) -> Option<int>
    decreases entries.len() - from,
{
    if from < 0 || from >= entries.len() {
        None
    } else if satisfies(entries[from], want) {
        Some(from)
    } else {
        first_in(entries, want, from + 1)
    }
}

/// The first entry, in the order of the segments and of the entries in a
/// segment, from segment `from` on, that is what is looked for.
pub open spec fn first_match(dir: Seq<SegmentView>, want: Query, from: int) -> Option<(int, int)>
    decreases dir.len() - from,
{
    if from < 0 || from >= dir.len() {
        None
    } else {
        match first_in(dir[from].entries, want, 0) {
            Some(e) => Some((from, e)),
            None => first_match(dir, want, from + 1),
        }
    }
}

/// The first free space of at least `blocks` blocks.
pub open spec fn empty_space(dir: Seq<SegmentView>, blocks: usize) -> Option<(int, int)> {
    first_match(dir, Query::Space(blocks), 0)
}

/// The first file named `name`.
pub open spec fn file_named(dir: Seq<SegmentView>, name: Seq<char>) -> Option<(int, int)> {
    first_match(dir, Query::File(name), 0)
}

pub proof fn lemma_first_in(entries: Seq<EntryView>, want: Query, from: int)
    requires
        0 <= from,
    ensures
        match first_in(entries, want, from) {
            Some(e) => from <= e < entries.len() && satisfies(entries[e], want) && forall|i: int|
                from <= i < e ==> !satisfies(#[trigger] entries[i], want),
            None => forall|i: int| from <= i < entries.len() ==> !satisfies(#[trigger] entries[i], want),
        },
    decreases entries.len() - from,
{
    if from < entries.len() && !satisfies(entries[from], want) {
        lemma_first_in(entries, want, from + 1);
    }
}

/// What is looked for is found at the first place, and only in range.
pub proof fn lemma_first_match(dir: Seq<SegmentView>, want: Query, from: int)
    requires
        0 <= from,
    ensures
        match first_match(dir, want, from) {
            Some((s, e)) => from <= s < dir.len() && 0 <= e < dir[s].entries.len() && satisfies(
                dir[s].entries[e],
                want,
            ),
            None => true,
        },
    decreases dir.len() - from,
{
    if from < dir.len() {
        lemma_first_in(dir[from].entries, want, 0);
        if first_in(dir[from].entries, want, 0) is None {
            lemma_first_match(dir, want, from + 1);
        }
    }
}

/// The segment with other entries.
pub open spec fn with_entries(s: SegmentView, entries: Seq<EntryView>) -> SegmentView {
    SegmentView { entries, ..s }
}

/// What writing the two blocks of a segment answers, and what the sectors
/// hold afterwards.
pub open spec fn segment_written(contents: Seq<SectorState>, size: int, seg: SegmentView) -> (
    Result<(), Error>,
    Seq<SectorState>,
) {
    match segment_bytes(seg) {
        Err(e) => (Err(e), contents),
        Ok(bytes) => write_blocks_spec(contents, size, seg.block as int, 2, bytes),
    }
}

/// Entry `i` and the entry after it made one, if both stand for free
/// blocks.
pub open spec fn coalesced(entries: Seq<EntryView>, i: int) -> Seq<EntryView> {
    if 0 <= i && i + 1 < entries.len() && entries[i].kind == EntryKind::Empty && entries[i + 1].kind
        == EntryKind::Empty {
        entries.update(
            i,
            EntryView { length: (entries[i].length + entries[i + 1].length) as usize, ..entries[i] },
        ).remove(i + 1)
    } else {
        entries
    }
}

/// Entry `i` given up: it stands for free blocks, and is made one with
/// the free blocks after it and then with those before it.
pub open spec fn released(entries: Seq<EntryView>, i: int) -> Seq<EntryView> {
    let freed = entries.update(i, EntryView { kind: EntryKind::Empty, ..entries[i] });
    let right = coalesced(freed, i);
    if i > 0 {
        coalesced(right, i - 1)
    } else {
        right
    }
}

/// The directory without the first file named `name`, and the segment that
/// has changed.
pub open spec fn deleted(dir: Seq<SegmentView>, name: Seq<char>) -> Option<(Seq<SegmentView>, int)> {
    match file_named(dir, name) {
        None => None,
        Some((s, e)) => Some((dir.update(s, with_entries(dir[s], released(dir[s].entries, e))), s)),
    }
}

/// What deleting `name` answers, and the directory and the sectors
/// afterwards.
pub open spec fn delete_outcome(dir: Seq<SegmentView>, contents: Seq<SectorState>, size: int, name: Seq<char>) -> (
    Result<(), Error>,
    Seq<SegmentView>,
    Seq<SectorState>,
) {
    match deleted(dir, name) {
        None => (Err(Error::NotFound), dir, contents),
        Some((d, s)) => {
            let w = segment_written(contents, size, d[s]);
            (w.0, d, w.1)
        },
    }
}

/// What giving the first file named `src` the name `dest` answers, and the
/// directory and the sectors afterwards.
pub open spec fn rename_outcome(
    dir: Seq<SegmentView>,
    contents: Seq<SectorState>,
    size: int,
    src: Seq<char>,
    dest: Seq<char>,
) -> (Result<(), Error>, Seq<SegmentView>, Seq<SectorState>) {
    if !valid_filename(dest) {
        (Err(Error::NameInvalid), dir, contents)
    } else {
        match file_named(dir, src) {
            None => (Err(Error::NotFound), dir, contents),
            Some((s, e)) => {
                let d = dir.update(
                    s,
                    with_entries(dir[s], dir[s].entries.update(e, EntryView { name: dest, ..dir[s].entries[e] })),
                );
                let w = segment_written(contents, size, d[s]);
                (w.0, d, w.1)
            },
        }
    }
}

/// The entries with the first `blocks` blocks of the free entry `i` given
/// to a file named `name` made on `date`, and the rest of them left free in
/// an entry of its own right after it.
pub open spec fn allocated(entries: Seq<EntryView>, i: int, name: Seq<char>, blocks: usize, date: Date) -> Seq<
    EntryView,
> {
    let slot = entries[i];
    let file = EntryView {
        name,
        length: blocks,
        kind: EntryKind::Permanent,
        read_only: false,
        protected: false,
        job: 0,
        channel: 0,
        creation_date: Some(date),
        ..slot
    };
    let rest = EntryView {
        block: (slot.block + blocks) as usize,
        length: (slot.length - blocks) as usize,
        ..slot
    };
    entries.update(i, file).insert(i + 1, rest)
}

/// The most segments that a directory is let grow to.
pub open spec fn dir_limit() -> int {
    65535
}

/// What splitting segment `s` answers, and the directory and the sectors
/// afterwards: a new segment is taken, the second half of the entries of
/// segment `s` moves to it, and it is put in the chain after segment `s`.
pub open spec fn split_outcome(dir: Seq<SegmentView>, start: u16, contents: Seq<SectorState>, size: int, s: int) -> (
    Result<(), Error>,
    Seq<SegmentView>,
    Seq<SectorState>,
) {
    let number = dir[0].last_segment + 1;
    if dir[0].last_segment == dir[0].segments || number > u16::MAX || segment_block_spec(start, number as u16)
        > u16::MAX || dir.len() >= dir_limit() {
        (Err(Error::NoSpace), dir, contents)
    } else {
        let d0 = dir.update(0, SegmentView { last_segment: number as u16, ..dir[0] });
        let full = d0[s];
        let half = (full.entries.len() / 2) as int;
        let moved = full.entries.subrange(half, full.entries.len() as int);
        let end = full.data_block + total_length(full.entries);
        let fresh = SegmentView {
            segments: dir[0].segments,
            next_segment: full.next_segment,
            last_segment: number as u16,
            extra_bytes: 0,
            data_block: (end - total_length(moved)) as u16,
            entries: moved,
            block: segment_block_spec(start, number as u16) as u16,
            segment: number as u16,
        };
        let kept = SegmentView { next_segment: number as u16, entries: full.entries.subrange(0, half), ..full };
        let d1 = d0.update(s, kept).insert(s + 1, fresh);
        let w1 = segment_written(contents, size, kept);
        match w1.0 {
            Err(e) => (Err(e), d1, w1.1),
            Ok(_) => {
                let w2 = segment_written(w1.1, size, fresh);
                (w2.0, d1, w2.1)
            },
        }
    }
}

/// What giving the first `blocks` blocks of the free entry `e` of segment
/// `s` to a new file answers: the place of the file, and the directory and
/// the sectors afterwards.
pub open spec fn place_outcome(
    dir: Seq<SegmentView>,
    contents: Seq<SectorState>,
    size: int,
    s: int,
    e: int,
    name: Seq<char>,
    blocks: usize,
    date: Date,
) -> (Result<(int, int), Error>, Seq<SegmentView>, Seq<SectorState>) {
    let d = dir.update(s, with_entries(dir[s], allocated(dir[s].entries, e, name, blocks, date)));
    let w = segment_written(contents, size, d[s]);
    (
        match w.0 {
            Ok(_) => Ok((s, e)),
            Err(err) => Err(err),
        },
        d,
        w.1,
    )
}

/// The entry was made as `out` says: the directory and the sectors are
/// those of `out`, and the answer is its error, or the writer for the blocks
/// of the entry at the place that it gives.
pub open spec fn created(
    out: (Result<(int, int), Error>, Seq<SegmentView>, Seq<SectorState>),
    bytes: usize,
    r: Result<RT11FileWriter, Error>,
    dir: Seq<SegmentView>,
    contents: Seq<SectorState>,
) -> bool {
    &&& dir == out.1
    &&& contents == out.2
    &&& match r {
        Err(e) => out.0 == Err::<(int, int), Error>(e),
        Ok(w) => out.0 matches Ok((s, e)) && 0 <= s < out.1.len() && 0 <= e < out.1[s].entries.len() && w@
            == new_writer(out.1[s].entries[e].block, blocks_for(bytes)) && w.wf(),
    }
}

/// What making an entry on the clock's day gives: what `created` says of
/// the outcome for some day, or, where the clock shows no day, the error for
/// a date out of range with nothing changed.
pub open spec fn created_today(
    dir: Seq<SegmentView>,
    start: u16,
    contents: Seq<SectorState>,
    size: int,
    name: Seq<char>,
    bytes: usize,
    r: Result<RT11FileWriter, Error>,
    dir_after: Seq<SegmentView>,
    contents_after: Seq<SectorState>,
) -> bool {
    ||| r == Err::<RT11FileWriter, Error>(Error::DateOutOfRange) && dir_after == dir && contents_after == contents
    ||| exists|date: Date|
        date.wf() && created(
            #[trigger] create_outcome(dir, start, contents, size, name, bytes, date),
            bytes,
            r,
            dir_after,
            contents_after,
        )
}

/// What writing a file on the clock's day gives: the outcome of the write
/// for some day, or, where the clock shows no day, the error for a date out
/// of range with nothing changed.
pub open spec fn written_today(
    dir: Seq<SegmentView>,
    start: u16,
    contents: Seq<SectorState>,
    size: int,
    name: Seq<char>,
    data: Seq<u8>,
    r: Result<(), Error>,
    dir_after: Seq<SegmentView>,
    contents_after: Seq<SectorState>,
) -> bool {
    ||| r == Err::<(), Error>(Error::DateOutOfRange) && dir_after == dir && contents_after == contents
    ||| exists|date: Date|
        date.wf() && (r, dir_after, contents_after) == #[trigger] write_file_outcome(
            dir,
            start,
            contents,
            size,
            name,
            data,
            date,
        )
}

/// Blocks that hold `bytes` bytes.
pub open spec fn blocks_for(bytes: usize) -> usize {
    ((bytes + 511) / 512) as usize
}

/// What making a file named `name` of `bytes` bytes on `date` answers: the
/// place of its entry, and the directory and the sectors afterwards. A file
/// of that name is deleted first; the first free space that is large
/// enough is taken; a segment that is full is split first.
pub open spec fn create_outcome(
    dir: Seq<SegmentView>,
    start: u16,
    contents: Seq<SectorState>,
    size: int,
    name: Seq<char>,
    bytes: usize,
    date: Date,
) -> (Result<(int, int), Error>, Seq<SegmentView>, Seq<SectorState>) {
    let blocks = blocks_for(bytes);
    if !valid_filename(name) {
        (Err(Error::NameInvalid), dir, contents)
    } else {
        let d = delete_outcome(dir, contents, size, name);
        match empty_space(d.1, blocks) {
            None => (Err(Error::NoSpace), d.1, d.2),
            Some((s, e)) => if d.1[s].entries.len() + 1 > max_entries_spec(d.1[s].extra_bytes) {
                let sp = split_outcome(d.1, start, d.2, size, s);
                match sp.0 {
                    Err(err) => (Err(err), sp.1, sp.2),
                    Ok(_) => match empty_space(sp.1, blocks) {
                        None => (Err(Error::NoSpace), sp.1, sp.2),
                        Some((s2, e2)) => place_outcome(sp.1, sp.2, size, s2, e2, name, blocks, date),
                    },
                }
            } else {
                place_outcome(d.1, d.2, size, s, e, name, blocks, date)
            },
        }
    }
}

pub proof fn lemma_coalesced_wf(s: SegmentView, i: int)
    requires
        segment_wf(s),
    ensures
        segment_wf(with_entries(s, coalesced(s.entries, i))),
        total_length(coalesced(s.entries, i)) == total_length(s.entries),
{
    let old = s.entries;
    let new = coalesced(old, i);
    if 0 <= i && i + 1 < old.len() && old[i].kind == EntryKind::Empty && old[i + 1].kind == EntryKind::Empty {
        assert(follows(old, i + 1));
        assert(old[i + 1].block + old[i + 1].length <= u16::MAX);
        assert(new.len() == old.len() - 1);
        assert forall|j: int| 0 <= j < new.len() implies (#[trigger] new[j]).block + new[j].length <= u16::MAX && (
        new[j].creation_date matches Some(d) ==> d.wf()) by {
            if j < i {
                assert(new[j] == old[j]);
            } else if j == i {
                assert(old[i].block + old[i].length <= u16::MAX);
            } else {
                assert(new[j] == old[j + 1]);
            }
        }
        assert forall|j: int| 0 < j < new.len() implies #[trigger] follows(new, j) by {
            if j < i {
                assert(follows(old, j));
            } else if j == i {
                assert(follows(old, j));
            } else if j == i + 1 {
                assert(follows(old, j + 1));
            } else {
                assert(follows(old, j + 1));
            }
        }
        lemma_total_coalesced(old, i);
    }
}

proof fn lemma_total_coalesced(old: Seq<EntryView>, i: int)
    requires
        0 <= i,
        i + 1 < old.len(),
        old[i].length + old[i + 1].length <= usize::MAX,
    ensures
        total_length(
            old.update(i, EntryView { length: (old[i].length + old[i + 1].length) as usize, ..old[i] }).remove(i + 1),
        ) == total_length(old),
    decreases old.len(),
{
    let merged = EntryView { length: (old[i].length + old[i + 1].length) as usize, ..old[i] };
    let new = old.update(i, merged).remove(i + 1);
    if i + 2 == old.len() {
        assert(new.drop_last() =~= old.drop_last().drop_last());
        assert(old.drop_last().last() == old[i]);
        assert(new.last() == merged);
        assert(total_length(old) == total_length(old.drop_last()) + old.last().length);
        assert(total_length(old.drop_last()) == total_length(old.drop_last().drop_last()) + old[i].length);
        assert(total_length(new) == total_length(new.drop_last()) + merged.length);
    } else {
        let shorter = old.drop_last();
        lemma_total_coalesced(shorter, i);
        assert(new.drop_last() =~= shorter.update(
            i,
            EntryView { length: (shorter[i].length + shorter[i + 1].length) as usize, ..shorter[i] },
        ).remove(i + 1));
        assert(new.last() == old.last());
        assert(total_length(old) == total_length(shorter) + old.last().length);
        assert(total_length(new) == total_length(new.drop_last()) + new.last().length);
    }
}

pub proof fn lemma_total_update(entries: Seq<EntryView>, i: int, e: EntryView)
    requires
        0 <= i < entries.len(),
    ensures
        total_length(entries.update(i, e)) == total_length(entries) - entries[i].length + e.length,
    decreases entries.len(),
{
    if i == entries.len() - 1 {
        assert(entries.update(i, e).drop_last() =~= entries.drop_last());
    } else {
        lemma_total_update(entries.drop_last(), i, e);
        assert(entries.update(i, e).drop_last() =~= entries.drop_last().update(i, e));
    }
}

pub proof fn lemma_total_insert(entries: Seq<EntryView>, i: int, e: EntryView)
    requires
        0 <= i <= entries.len(),
    ensures
        total_length(entries.insert(i, e)) == total_length(entries) + e.length,
    decreases entries.len(),
{
    if i == entries.len() {
        assert(entries.insert(i, e).drop_last() =~= entries);
    } else {
        lemma_total_insert(entries.drop_last(), i, e);
        assert(entries.insert(i, e).drop_last() =~= entries.drop_last().insert(i, e));
    }
}

pub proof fn lemma_released_wf(s: SegmentView, i: int)
    requires
        segment_wf(s),
        0 <= i < s.entries.len(),
    ensures
        segment_wf(with_entries(s, released(s.entries, i))),
        total_length(released(s.entries, i)) == total_length(s.entries),
{
    let freed = s.entries.update(i, EntryView { kind: EntryKind::Empty, ..s.entries[i] });
    let s1 = with_entries(s, freed);
    assert(segment_wf(s1)) by {
        assert forall|j: int| 0 < j < freed.len() implies #[trigger] follows(freed, j) by {
            assert(follows(s.entries, j));
        }
        assert forall|j: int| 0 <= j < freed.len() implies (#[trigger] freed[j]).block + freed[j].length <= u16::MAX && (
        freed[j].creation_date matches Some(d) ==> d.wf()) by {
            assert(s.entries[j].block + s.entries[j].length <= u16::MAX);
        }
    }
    lemma_total_update(s.entries, i, EntryView { kind: EntryKind::Empty, ..s.entries[i] });
    lemma_coalesced_wf(s1, i);
    let s2 = with_entries(s, coalesced(freed, i));
    assert(s2 == with_entries(s1, coalesced(freed, i)));
    if i > 0 {
        lemma_coalesced_wf(s2, i - 1);
        assert(with_entries(s2, coalesced(s2.entries, i - 1)) == with_entries(s, released(s.entries, i)));
    }
}

pub proof fn lemma_allocated_wf(s: SegmentView, i: int, name: Seq<char>, blocks: usize, date: Date)
    requires
        segment_wf(s),
        0 <= i < s.entries.len(),
        s.entries[i].length >= blocks,
        date.wf(),
    ensures
        segment_wf(with_entries(s, allocated(s.entries, i, name, blocks, date))),
        total_length(allocated(s.entries, i, name, blocks, date)) == total_length(s.entries),
{
    let old = s.entries;
    let new = allocated(old, i, name, blocks, date);
    assert(old[i].block + old[i].length <= u16::MAX);
    assert forall|j: int| 0 <= j < new.len() implies (#[trigger] new[j]).block + new[j].length <= u16::MAX && (
    new[j].creation_date matches Some(d) ==> d.wf()) by {
        if j < i {
            assert(new[j] == old[j]);
        } else if j > i + 1 {
            assert(new[j] == old[j - 1]);
        }
    }
    assert forall|j: int| 0 < j < new.len() implies #[trigger] follows(new, j) by {
        if j <= i {
            assert(follows(old, j));
        } else if j == i + 1 {
        } else if j == i + 2 {
            assert(follows(old, j - 1));
        } else {
            assert(follows(old, j - 1));
        }
    }
    let slot = old[i];
    let file = EntryView {
        name,
        length: blocks,
        kind: EntryKind::Permanent,
        read_only: false,
        protected: false,
        job: 0,
        channel: 0,
        creation_date: Some(date),
        ..slot
    };
    let rest = EntryView {
        block: (slot.block + blocks) as usize,
        length: (slot.length - blocks) as usize,
        ..slot
    };
    lemma_total_update(old, i, file);
    lemma_total_insert(old.update(i, file), i + 1, rest);
}

/// The entries `from..to` of a consistent segment are consistent at the
/// block where entry `from` begins.
pub proof fn lemma_part_wf(full: SegmentView, from: int, to: int, data_block: u16)
    requires
        segment_wf(full),
        0 <= from <= to <= full.entries.len(),
        from < to ==> data_block == full.entries[from].block,
    ensures
        segment_wf(SegmentView { data_block, entries: full.entries.subrange(from, to), ..full }),
{
    let all = full.entries;
    let part = all.subrange(from, to);
    assert forall|j: int| 0 < j < part.len() implies #[trigger] follows(part, j) by {
        assert(follows(all, from + j));
    }
    assert forall|j: int| 0 <= j < part.len() implies (#[trigger] part[j]).block + part[j].length <= u16::MAX && (
    part[j].creation_date matches Some(d) ==> d.wf()) by {
        assert(all[from + j].block + all[from + j].length <= u16::MAX);
    }
}

/// Where the entries of a consistent segment are cut in two, the first
/// part is consistent at the data block of the segment, and the second is
/// at the block where the whole ends less the blocks that it holds.
pub proof fn lemma_split_wf(full: SegmentView, half: int)
    requires
        segment_wf(full),
        0 <= half <= full.entries.len(),
    ensures
        ({
            let moved = full.entries.subrange(half, full.entries.len() as int);
            let kept = full.entries.subrange(0, half);
            let end = full.data_block + total_length(full.entries);
            &&& full.data_block <= end - total_length(moved) <= end <= u16::MAX
            &&& 0 <= total_length(moved) <= u16::MAX
            &&& total_length(kept) + total_length(moved) == total_length(full.entries)
            &&& segment_wf(with_entries(full, kept))
            &&& segment_wf(SegmentView { data_block: (end - total_length(moved)) as u16, entries: moved, ..full })
        }),
{
    let all = full.entries;
    let n = all.len() as int;
    let moved = all.subrange(half, n);
    let kept = all.subrange(0, half);
    let end = full.data_block + total_length(all);
    assert(kept + moved =~= all);
    lemma_total_length_concat(kept, moved);
    lemma_prefix_total(full, half);
    lemma_prefix_total(full, n);
    assert(all.subrange(0, n) =~= all);
    super::lemma_total_length_nonneg(moved);
    super::lemma_total_length_nonneg(kept);
    let start = (end - total_length(moved)) as u16;
    assert(start == full.data_block + total_length(kept));
    lemma_part_wf(full, 0, half, full.data_block);
    assert(with_entries(full, kept) == SegmentView { data_block: full.data_block, entries: kept, ..full });
    lemma_part_wf(full, half, n, start);
}

/// Blocks that the entries cover together.
fn total_of(entries: &Vec<DirEntry>) -> (n: usize)
    requires
        total_length(entry_views(entries@)) <= u16::MAX,
    ensures
        n == total_length(entry_views(entries@)),
{
    let ghost views = entry_views(entries@);
    let mut n: usize = 0;
    let mut i: usize = 0;
    assert(views.subrange(0, 0) =~= Seq::<EntryView>::empty());
    while i < entries.len()
        invariant
            i <= entries@.len(),
            views == entry_views(entries@),
            total_length(views) <= u16::MAX,
            n == total_length(views.subrange(0, i as int)),
        decreases entries@.len() - i,
    {
        proof {
            lemma_total_length_prefix(views, i + 1);
            assert(views.subrange(0, i + 1).drop_last() =~= views.subrange(0, i as int));
        }
        n = n + entries[i].length;
        i += 1;
    }
    assert(views.subrange(0, entries@.len() as int) =~= views);
    n
}

fn entry_satisfies(e: &DirEntry, want: &Wanted) -> (b: bool)
    ensures
        b == satisfies(e@, want@),
{
    match want {
        Wanted::Space(blocks) => e.kind == EntryKind::Empty && e.length >= *blocks,
        Wanted::File(name) => e.kind == EntryKind::Permanent && e.name == *name,
    }
}

impl<B: BlockDevice> RT11FS<B> {
    /// The device can be used and the directory is consistent.
    pub open spec fn wf(&self) -> bool {
        self.image.wf() && dir_wf(self.dir_view())
    }

    /// The directory as a mathematical value.
    pub open spec fn dir_view(&self) -> Seq<SegmentView> {
        segment_views(self.dir@)
    }

    /// Opens the volume on `image`: reads the home block and the directory.
    pub fn new(image: B) -> (r: Result<RT11FS<B>, Error>)
        requires
            image.wf(),
        ensures
            match r {
                Ok(fs) => fs.wf() && fs.image == image && loaded(image.contents(), image.sector_size_spec()) == Ok::<
                    (HomeView, Seq<SegmentView>),
                    Error,
                >((fs.home@, fs.dir_view())),
                Err(e) => loaded(image.contents(), image.sector_size_spec()) == Err::<
                    (HomeView, Seq<SegmentView>),
                    Error,
                >(e),
            },
    {
        let home = match Self::read_homeblock(&image) {
            Ok(h) => h,
            Err(e) => { return Err(e); },
        };
        let dir = match Self::read_directory(&image, home.directory_start_block) {
            Ok(d) => d,
            Err(e) => { return Err(e); },
        };
        Ok(RT11FS { image, home, dir })
    }

    /// The image holds a volume whose entries lie on the device.
    pub fn image_is(image: &B) -> (b: bool)
        requires
            image.wf(),
        ensures
            b == (match loaded(image.contents(), image.sector_size_spec()) {
                Err(e) => false,
                Ok((home, dir)) => forall|s: int, e: int|
                    0 <= s < dir.len() && 0 <= e < dir[s].entries.len() ==> (#[trigger] dir[s].entries[e]).length
                        < image.contents().len() * image.sector_size_spec() / 512 && dir[s].entries[e].block
                        < image.contents().len() * image.sector_size_spec() / 512,
            }),
    {
        let home = match Self::read_homeblock(image) {
            Ok(h) => h,
            Err(e) => { return false; },
        };
        let dir = match Self::read_directory(image, home.directory_start_block) {
            Ok(d) => d,
            Err(e) => { return false; },
        };
        let blocks = image.blocks();
        let ghost views = segment_views(dir@);
        let ghost hv = home@;
        let mut s: usize = 0;
        while s < dir.len()
            invariant
                s <= dir@.len(),
                views == segment_views(dir@),
                blocks == image.contents().len() * image.sector_size_spec() / 512,
                loaded(image.contents(), image.sector_size_spec()) == Ok::<(HomeView, Seq<SegmentView>), Error>((hv, views)),
                forall|i: int, e: int|
                    0 <= i < s && 0 <= e < views[i].entries.len() ==> (#[trigger] views[i].entries[e]).length < blocks
                        && views[i].entries[e].block < blocks,
            decreases dir@.len() - s,
        {
            let seg = &dir[s];
            let mut e: usize = 0;
            while e < seg.entries.len()
                invariant
                    s < dir@.len(),
                    *seg == dir@[s as int],
                    e <= seg.entries@.len(),
                    views == segment_views(dir@),
                    blocks == image.contents().len() * image.sector_size_spec() / 512,
                    loaded(image.contents(), image.sector_size_spec()) == Ok::<(HomeView, Seq<SegmentView>), Error>((hv, views)),
                    forall|k: int| 0 <= k < e ==> (#[trigger] views[s as int].entries[k]).length < blocks && views[s as int].entries[k].block < blocks,
                decreases seg.entries@.len() - e,
            {
                let entry = &seg.entries[e];
                assert(entry@ == views[s as int].entries[e as int]);
                if entry.length >= blocks || entry.block >= blocks {
                    return false;
                }
                e += 1;
            }
            s += 1;
        }
        true
    }

    /// Reads the home block, block 1.
    pub fn read_homeblock(image: &B) -> (r: Result<HomeBlock, Error>)
        requires
            image.wf(),
        ensures
            match r {
                Ok(h) => loaded_home(image.contents(), image.sector_size_spec()) == Ok::<HomeView, Error>(h@),
                Err(e) => loaded_home(image.contents(), image.sector_size_spec()) == Err::<HomeView, Error>(e),
            },
    {
        match image.read_blocks(1, 1) {
            Err(e) => Err(e),
            Ok(bytes) => HomeBlock::from_repr(bytes.as_slice()),
        }
    }

    /// Reads the directory: the chain of segments from segment 1 on, the
    /// first of which lies at block `directory_start_block`.
    pub fn read_directory(image: &B, directory_start_block: u16) -> (r: Result<Vec<DirSegment>, Error>)
        requires
            image.wf(),
        ensures
            match r {
                Ok(dir) => dir_wf(segment_views(dir@)) && loaded_dir(
                    image.contents(),
                    image.sector_size_spec(),
                    directory_start_block,
                ) == Ok::<Seq<SegmentView>, Error>(segment_views(dir@)),
                Err(e) => loaded_dir(image.contents(), image.sector_size_spec(), directory_start_block) == Err::<
                    Seq<SegmentView>,
                    Error,
                >(e),
            },
    {
        let ghost contents = image.contents();
        let ghost size = image.sector_size_spec();
        let ghost whole = loaded_dir(contents, size, directory_start_block);
        let mut dir: Vec<DirSegment> = Vec::new();
        let mut segment: u16 = 1;
        let mut fuel: u32 = 65535;
        proof {
            assert(segment_views(dir@) =~= Seq::<SegmentView>::empty());
            if let Ok(more) = whole {
                assert(Seq::<SegmentView>::empty() + more =~= more);
            }
        }
        loop
            invariant_except_break
                whole == segments_then(
                    segment_views(dir@),
                    loaded_chain(contents, size, directory_start_block, segment, fuel as nat),
                ),
                dir@.len() + fuel <= 65535,
            invariant
                image.wf(),
                contents == image.contents(),
                size == image.sector_size_spec(),
                whole == loaded_dir(contents, size, directory_start_block),
                forall|i: int| 0 <= i < dir@.len() ==> segment_wf(#[trigger] segment_views(dir@)[i]),
            ensures
                whole == Ok::<Seq<SegmentView>, Error>(segment_views(dir@)),
                dir_wf(segment_views(dir@)),
            decreases fuel,
        {
            if fuel == 0 || segment < 1 {
                return Err(Error::Format);
            }
            if (segment - 1) as u32 * 2 + directory_start_block as u32 > u16::MAX as u32 {
                return Err(Error::Format);
            }
            let block = DirSegment::segment_block(directory_start_block, segment);
            let bytes = match image.read_blocks(block as usize, 2) {
                Ok(b) => b,
                Err(e) => { return Err(e); },
            };
            let seg = match DirSegment::from_repr(segment, block, bytes.as_slice()) {
                Ok(s) => s,
                Err(e) => { return Err(e); },
            };
            let next = seg.next_segment;
            let ghost found = segment_views(dir@);
            let ghost sv = seg@;
            proof {
                if next != 0 {
                    if let Ok(more) = loaded_chain(contents, size, directory_start_block, next, (fuel - 1) as nat) {
                        assert(found + (seq![sv] + more) =~= found.push(sv) + more);
                    }
                } else {
                    assert(found + seq![sv] =~= found.push(sv));
                }
            }
            dir.push(seg);
            proof {
                assert(segment_views(dir@) =~= found.push(sv));
            }
            if next == 0 {
                break ;
            }
            segment = next;
            fuel = fuel - 1;
        }
        Ok(dir)
    }

    /// The first entry that is what is looked for: its segment and its
    /// place in the segment.
    fn find(&self, want: &Wanted) -> (r: Option<(usize, usize)>)
        ensures
            match r {
                Some((s, e)) => first_match(self.dir_view(), want@, 0) == Some((s as int, e as int)) && s
                    < self.dir@.len() && e < self.dir@[s as int].entries@.len(),
                None => first_match(self.dir_view(), want@, 0) is None,
            },
    {
        let ghost dir = self.dir_view();
        let mut s: usize = 0;
        while s < self.dir.len()
            invariant
                s <= self.dir@.len(),
                dir == self.dir_view(),
                first_match(dir, want@, 0) == first_match(dir, want@, s as int),
            decreases self.dir@.len() - s,
        {
            let seg = &self.dir[s];
            let mut e: usize = 0;
            while e < seg.entries.len()
                invariant
                    s < self.dir@.len(),
                    *seg == self.dir@[s as int],
                    dir == self.dir_view(),
                    e <= seg.entries@.len(),
                    first_match(dir, want@, 0) == first_match(dir, want@, s as int),
                    first_in(dir[s as int].entries, want@, 0) == first_in(dir[s as int].entries, want@, e as int),
                decreases seg.entries@.len() - e,
            {
                assert(seg.entries@[e as int]@ == dir[s as int].entries[e as int]);
                if entry_satisfies(&seg.entries[e], want) {
                    return Some((s, e));
                }
                e += 1;
            }
            s += 1;
        }
        None
    }

    /// The first free space of at least `blocks` blocks.
    pub fn find_empty_space(&self, blocks: usize) -> (r: Option<(usize, usize)>)
        ensures
            match r {
                Some((s, e)) => empty_space(self.dir_view(), blocks) == Some((s as int, e as int)) && s
                    < self.dir@.len() && e < self.dir@[s as int].entries@.len(),
                None => empty_space(self.dir_view(), blocks) is None,
            },
    {
        self.find(&Wanted::Space(blocks))
    }

    /// The first file named `name`.
    pub fn find_file_named(&self, name: &str) -> (r: Option<(usize, usize)>)
        ensures
            match r {
                Some((s, e)) => file_named(self.dir_view(), name@) == Some((s as int, e as int)) && s
                    < self.dir@.len() && e < self.dir@[s as int].entries@.len() && self.dir@[s as int].entries@[e as int].name@
                    == name@ && self.dir@[s as int].entries@[e as int].kind == EntryKind::Permanent,
                None => file_named(self.dir_view(), name@) is None,
            },
    {
        let want = Wanted::File(String::from_str(name));
        proof {
            lemma_first_match(self.dir_view(), want@, 0);
        }
        let r = self.find(&want);
        proof {
            if let Some((s, e)) = r {
                assert(self.dir_view()[s as int].entries[e as int] == self.dir@[s as int].entries@[e as int]@);
            }
        }
        r
    }

    /// Writes segment `segment` of the directory to its two blocks.
    pub fn write_directory_segment(&mut self, segment: usize) -> (r: Result<(), Error>)
        requires
            old(self).wf(),
            segment < old(self).dir@.len(),
        ensures
            final(self).wf(),
            final(self).home == old(self).home,
            final(self).dir == old(self).dir,
            final(self).image.sector_size_spec() == old(self).image.sector_size_spec(),
            (r, final(self).image.contents()) == segment_written(
                old(self).image.contents(),
                old(self).image.sector_size_spec(),
                old(self).dir_view()[segment as int],
            ),
    {
        assert(segment_wf(self.dir_view()[segment as int]));
        let bytes = match self.dir[segment].repr() {
            Ok(b) => b,
            Err(e) => { return Err(e); },
        };
        self.image.write_blocks(self.dir[segment].block as usize, 2, bytes.as_slice())
    }

    /// Makes entry `entry` of segment `segment` and the entry after it one,
    /// if both stand for free blocks.
    pub fn coalesce_empty(&mut self, segment: usize, entry: usize)
        requires
            old(self).wf(),
            segment < old(self).dir@.len(),
        ensures
            final(self).wf(),
            final(self).home == old(self).home,
            final(self).image == old(self).image,
            final(self).dir_view() == old(self).dir_view().update(
                segment as int,
                with_entries(
                    old(self).dir_view()[segment as int],
                    coalesced(old(self).dir_view()[segment as int].entries, entry as int),
                ),
            ),
    {
        let ghost before = self.dir_view();
        let ghost seg = before[segment as int];
        proof {
            assert(segment_wf(seg));
            lemma_coalesced_wf(seg, entry as int);
        }
        let n = self.dir[segment].entries.len();
        if entry >= n || entry + 1 >= n || self.dir[segment].entries[entry].kind != EntryKind::Empty
            || self.dir[segment].entries[entry + 1].kind != EntryKind::Empty {
            proof {
                if entry + 1 < n {
                    assert(seg.entries[entry as int] == self.dir@[segment as int].entries@[entry as int]@);
                    assert(seg.entries[entry + 1] == self.dir@[segment as int].entries@[entry + 1]@);
                }
                assert(self.dir_view() =~= before.update(segment as int, with_entries(seg, coalesced(seg.entries, entry as int))));
            }
            return ;
        }
        proof {
            assert(seg.entries[entry as int] == self.dir@[segment as int].entries@[entry as int]@);
            assert(seg.entries[entry + 1] == self.dir@[segment as int].entries@[entry + 1]@);
            assert(follows(seg.entries, entry + 1));
            assert(seg.entries[entry + 1].block + seg.entries[entry + 1].length <= u16::MAX);
        }
        let extra = self.dir[segment].entries[entry + 1].length;
        let sum = self.dir[segment].entries[entry].length + extra;
        self.dir[segment].entries[entry].length = sum;
        let _ = self.dir[segment].entries.remove(entry + 1);
        proof {
            assert(entry_views(self.dir@[segment as int].entries@) =~= coalesced(seg.entries, entry as int));
            assert(self.dir_view() =~= before.update(segment as int, with_entries(seg, coalesced(seg.entries, entry as int))));
        }
    }

    /// Deletes the first file named `name`: its blocks become free and are
    /// made one with the free blocks beside them.
    pub fn delete(&mut self, name: &str) -> (r: Result<(), Error>)
        requires
            old(self).wf(),
        ensures
            final(self).wf(),
            final(self).home == old(self).home,
            final(self).image.sector_size_spec() == old(self).image.sector_size_spec(),
            (r, final(self).dir_view(), final(self).image.contents()) == delete_outcome(
                old(self).dir_view(),
                old(self).image.contents(),
                old(self).image.sector_size_spec(),
                name@,
            ),
    {
        let ghost before = self.dir_view();
        let (segment, entry) = match self.find_file_named(name) {
            Some(found) => found,
            None => { return Err(Error::NotFound); },
        };
        let ghost seg = before[segment as int];
        let ghost freed = seg.entries.update(
            entry as int,
            EntryView { kind: EntryKind::Empty, ..seg.entries[entry as int] },
        );
        proof {
            assert(segment_wf(seg));
            lemma_released_wf(seg, entry as int);
            assert(seg.entries[entry as int] == self.dir@[segment as int].entries@[entry as int]@);
        }
        self.dir[segment].entries[entry].kind = EntryKind::Empty;
        proof {
            assert(entry_views(self.dir@[segment as int].entries@) =~= freed);
            assert(self.dir_view() =~= before.update(segment as int, with_entries(seg, freed)));
            assert(segment_wf(with_entries(seg, freed))) by {
                assert forall|j: int| 0 < j < freed.len() implies #[trigger] follows(freed, j) by {
                    assert(follows(seg.entries, j));
                }
                assert forall|j: int| 0 <= j < freed.len() implies (#[trigger] freed[j]).block + freed[j].length <= u16::MAX
                    && (freed[j].creation_date matches Some(d) ==> d.wf()) by {
                    assert(seg.entries[j].block + seg.entries[j].length <= u16::MAX);
                }
            }
        }
        self.coalesce_empty(segment, entry);
        if entry > 0 {
            self.coalesce_empty(segment, entry - 1);
        }
        proof {
            assert(self.dir_view() =~= before.update(segment as int, with_entries(seg, released(seg.entries, entry as int))));
        }
        self.write_directory_segment(segment)
    }

    /// Gives the first file named `src` the name `dest`, whether or not a
    /// file named `dest` exists.
    pub fn rename_unchecked(&mut self, src: &str, dest: &str) -> (r: Result<(), Error>)
        requires
            old(self).wf(),
        ensures
            final(self).wf(),
            final(self).home == old(self).home,
            final(self).image.sector_size_spec() == old(self).image.sector_size_spec(),
            (r, final(self).dir_view(), final(self).image.contents()) == rename_outcome(
                old(self).dir_view(),
                old(self).image.contents(),
                old(self).image.sector_size_spec(),
                src@,
                dest@,
            ),
    {
        let ghost before = self.dir_view();
        match DirEntry::encode_filename(dest) {
            Ok(_) => {},
            Err(e) => { return Err(e); },
        }
        let (segment, entry) = match self.find_file_named(src) {
            Some(found) => found,
            None => { return Err(Error::NotFound); },
        };
        let ghost seg = before[segment as int];
        let ghost named = seg.entries.update(entry as int, EntryView { name: dest@, ..seg.entries[entry as int] });
        proof {
            assert(segment_wf(seg));
            assert(seg.entries[entry as int] == self.dir@[segment as int].entries@[entry as int]@);
        }
        self.dir[segment].entries[entry].name = String::from_str(dest);
        proof {
            assert(entry_views(self.dir@[segment as int].entries@) =~= named);
            assert(self.dir_view() =~= before.update(segment as int, with_entries(seg, named)));
            assert(segment_wf(with_entries(seg, named))) by {
                assert forall|j: int| 0 < j < named.len() implies #[trigger] follows(named, j) by {
                    assert(follows(seg.entries, j));
                }
                assert forall|j: int| 0 <= j < named.len() implies (#[trigger] named[j]).block + named[j].length <= u16::MAX
                    && (named[j].creation_date matches Some(d) ==> d.wf()) by {
                    assert(seg.entries[j].block + seg.entries[j].length <= u16::MAX);
                }
            }
        }
        self.write_directory_segment(segment)
    }

    /// Takes the next unused segment of the directory: a segment with one
    /// entry for the free blocks `data_block`.
    fn alloc_segment(&mut self, data_block: Range<u16>) -> (r: Result<DirSegment, Error>)
        requires
            old(self).wf(),
            data_block.start <= data_block.end,
        ensures
            final(self).home == old(self).home,
            final(self).image == old(self).image,
            match r {
                Err(e) => e == Error::NoSpace && final(self).dir == old(self).dir && (old(self).dir@[0].last_segment
                    == old(self).dir@[0].segments || old(self).dir@[0].last_segment + 1 > u16::MAX || segment_block_spec(
                    old(self).home.directory_start_block,
                    (old(self).dir@[0].last_segment + 1) as u16,
                ) > u16::MAX || old(self).dir@.len() >= dir_limit()),
                Ok(seg) => {
                    let number = (old(self).dir@[0].last_segment + 1) as u16;
                    &&& old(self).dir@[0].last_segment != old(self).dir@[0].segments
                    &&& old(self).dir@[0].last_segment + 1 <= u16::MAX
                    &&& segment_block_spec(old(self).home.directory_start_block, number) <= u16::MAX
                    &&& old(self).dir@.len() < dir_limit()
                    &&& final(self).wf()
                    &&& final(self).dir_view() == old(self).dir_view().update(
                        0,
                        SegmentView { last_segment: number, ..old(self).dir_view()[0] },
                    )
                    &&& seg@ == new_segment(
                        number,
                        old(self).home.directory_start_block,
                        Range { start: number, end: old(self).dir@[0].segments },
                        data_block,
                    )
                },
            },
    {
        let ghost before = self.dir_view();
        assert(segment_wf(before[0]));
        if self.dir[0].last_segment == self.dir[0].segments || self.dir[0].last_segment == u16::MAX {
            return Err(Error::NoSpace);
        }
        let number = self.dir[0].last_segment + 1;
        if (number as u32 - 1) * 2 + self.home.directory_start_block as u32 > u16::MAX as u32 {
            return Err(Error::NoSpace);
        }
        if self.dir.len() >= 65535 {
            return Err(Error::NoSpace);
        }
        self.dir[0].last_segment = number;
        proof {
            assert(self.dir@[0]@ == SegmentView { last_segment: number, ..before[0] });
            assert(self.dir_view() =~= before.update(0, SegmentView { last_segment: number, ..before[0] }));
            assert forall|i: int| 0 <= i < self.dir_view().len() implies segment_wf(#[trigger] self.dir_view()[i]) by {
                assert(segment_wf(before[i]));
            }
        }
        Ok(
            DirSegment::new(
                number,
                self.home.directory_start_block,
                Range { start: number, end: self.dir[0].segments },
                data_block,
            ),
        )
    }

    /// Splits segment `segment` in two: a new segment takes the second half
    /// of its entries and follows it in the chain.
    pub fn split_directory(&mut self, segment: usize) -> (r: Result<(), Error>)
        requires
            old(self).wf(),
            segment < old(self).dir@.len(),
        ensures
            final(self).wf(),
            final(self).home == old(self).home,
            final(self).image.sector_size_spec() == old(self).image.sector_size_spec(),
            (r, final(self).dir_view(), final(self).image.contents()) == split_outcome(
                old(self).dir_view(),
                old(self).home.directory_start_block,
                old(self).image.contents(),
                old(self).image.sector_size_spec(),
                segment as int,
            ),
    {
        let ghost before = self.dir_view();
        assert(segment_wf(before[segment as int]));
        let block_range = self.dir[segment].block_range();
        let mut new_seg = match self.alloc_segment(Range { start: block_range.end, end: block_range.end }) {
            Ok(s) => s,
            Err(e) => { return Err(e); },
        };
        let ghost d0 = self.dir_view();
        let ghost full = d0[segment as int];
        let ghost number = new_seg.segment;
        assert(full.entries == before[segment as int].entries && full.data_block == before[segment as int].data_block);
        assert(segment_wf(full));
        new_seg.next_segment = self.dir[segment].next_segment;
        self.dir[segment].next_segment = new_seg.segment;
        let half = self.dir[segment].entries.len() / 2;
        proof {
            lemma_split_wf(full, half as int);
        }
        let moved = self.dir[segment].entries.split_off(half);
        let ghost moved_views = full.entries.subrange(half as int, full.entries.len() as int);
        let ghost kept_views = full.entries.subrange(0, half as int);
        proof {
            assert(entry_views(moved@) =~= moved_views);
            assert(entry_views(self.dir@[segment as int].entries@) =~= kept_views);
        }
        let blocks = total_of(&moved);
        new_seg.entries = moved;
        new_seg.data_block = new_seg.data_block - blocks as u16;
        let ghost fresh = new_seg@;
        let ghost kept = SegmentView { next_segment: number, entries: kept_views, ..full };
        proof {
            assert(self.dir@[segment as int]@ == kept);
            assert(segment_wf(kept));
            assert(segment_wf(fresh));
        }
        self.dir.insert(segment + 1, new_seg);
        proof {
            assert(self.dir_view() =~= d0.update(segment as int, kept).insert(segment + 1, fresh));
            assert forall|i: int| 0 <= i < self.dir_view().len() implies segment_wf(#[trigger] self.dir_view()[i]) by {
                if i < segment {
                    assert(segment_wf(d0[i]));
                } else if i > segment + 1 {
                    assert(segment_wf(d0[i - 1]));
                }
            }
        }
        match self.write_directory_segment(segment) {
            Ok(()) => {},
            Err(e) => { return Err(e); },
        }
        self.write_directory_segment(segment + 1)
    }

    /// Makes the entry of a file named `name` of `bytes` bytes, dated
    /// `date`, and gives the writer for its blocks. The writer writes
    /// nothing when it is dropped: the caller ends the file with `flush` or
    /// `close`.
    pub fn create_dated(&mut self, name: &str, bytes: usize, date: Date) -> (r: Result<RT11FileWriter, Error>)
        requires
            old(self).wf(),
            date.wf(),
        ensures
            final(self).wf(),
            final(self).home == old(self).home,
            final(self).image.sector_size_spec() == old(self).image.sector_size_spec(),
            ({
                let out = create_outcome(
                    old(self).dir_view(),
                    old(self).home.directory_start_block,
                    old(self).image.contents(),
                    old(self).image.sector_size_spec(),
                    name@,
                    bytes,
                    date,
                );
                &&& final(self).dir_view() == out.1
                &&& final(self).image.contents() == out.2
                &&& match r {
                    Err(e) => out.0 == Err::<(int, int), Error>(e),
                    Ok(w) => out.0 matches Ok((s, e)) && 0 <= s < out.1.len() && 0 <= e < out.1[s].entries.len() && w@
                        == new_writer(out.1[s].entries[e].block, blocks_for(bytes)) && w.wf(),
                }
            }),
    {
        let blocks = bytes / BLOCK_SIZE + (if bytes % BLOCK_SIZE > 0 { 1 } else { 0 });
        assert(blocks == blocks_for(bytes));
        match DirEntry::encode_filename(name) {
            Ok(_) => {},
            Err(e) => { return Err(e); },
        }
        let _ = self.delete(name);
        let (segment, entry) = match self.find_empty_space(blocks) {
            Some(found) => found,
            None => { return Err(Error::NoSpace); },
        };
        proof {
            lemma_first_match(self.dir_view(), Query::Space(blocks), 0);
            assert(self.dir_view()[segment as int].entries[entry as int] == self.dir@[segment as int].entries@[entry as int]@);
        }
        if self.dir[segment].entries.len() >= self.dir[segment].max_entries() {
            match self.split_directory(segment) {
                Ok(()) => {},
                Err(e) => { return Err(e); },
            }
            match self.find_empty_space(blocks) {
                Some((s, e)) => {
                    proof {
                        lemma_first_match(self.dir_view(), Query::Space(blocks), 0);
                        assert(self.dir_view()[s as int].entries[e as int] == self.dir@[s as int].entries@[e as int]@);
                    }
                    self.place(s, e, name, blocks, date)
                },
                None => Err(Error::NoSpace),
            }
        } else {
            self.place(segment, entry, name, blocks, date)
        }
    }

    /// Makes the entry of a file named `name` of `bytes` bytes, dated with
    /// the clock's day in universal time, and gives the writer for its
    /// blocks. Where the clock shows no day, nothing is changed and the
    /// answer is the error for a date out of range.
    ///
    /// The writer holds no reference to the volume and writes nothing when it
    /// is dropped: what was handed to it reaches the image by its `write`,
    /// and the rest of the last block only by `flush` or `close`. A caller
    /// that drops it without one of them leaves the last partial block of
    /// the file as the image had it.
    pub fn create(&mut self, name: &str, bytes: usize) -> (r: Result<RT11FileWriter, Error>)
        requires
            old(self).wf(),
        ensures
            final(self).wf(),
            final(self).home == old(self).home,
            final(self).image.sector_size_spec() == old(self).image.sector_size_spec(),
            created_today(
                old(self).dir_view(),
                old(self).home.directory_start_block,
                old(self).image.contents(),
                old(self).image.sector_size_spec(),
                name@,
                bytes,
                r,
                final(self).dir_view(),
                final(self).image.contents(),
            ),
    {
        let date = match today() {
            Some(d) => d,
            None => { return Err(Error::DateOutOfRange); },
        };
        let r = self.create_dated(name, bytes, date);
        proof {
            let out = create_outcome(
                old(self).dir_view(),
                old(self).home.directory_start_block,
                old(self).image.contents(),
                old(self).image.sector_size_spec(),
                name@,
                bytes,
                date,
            );
            assert(created(out, bytes, r, self.dir_view(), self.image.contents()));
        }
        r
    }

    /// Gives the first `blocks` blocks of the free entry `entry` of segment
    /// `segment` to a new file.
    fn place(&mut self, segment: usize, entry: usize, name: &str, blocks: usize, date: Date) -> (r: Result<
        RT11FileWriter,
        Error,
    >)
        requires
            old(self).wf(),
            date.wf(),
            segment < old(self).dir@.len(),
            entry < old(self).dir@[segment as int].entries@.len(),
            old(self).dir@[segment as int].entries@[entry as int].length >= blocks,
        ensures
            final(self).wf(),
            final(self).home == old(self).home,
            final(self).image.sector_size_spec() == old(self).image.sector_size_spec(),
            ({
                let out = place_outcome(
                    old(self).dir_view(),
                    old(self).image.contents(),
                    old(self).image.sector_size_spec(),
                    segment as int,
                    entry as int,
                    name@,
                    blocks,
                    date,
                );
                &&& final(self).dir_view() == out.1
                &&& final(self).image.contents() == out.2
                &&& match r {
                    Err(e) => out.0 == Err::<(int, int), Error>(e),
                    Ok(w) => out.0 == Ok::<(int, int), Error>((segment as int, entry as int)) && 0 <= segment
                        < out.1.len() && entry < out.1[segment as int].entries.len() && w@ == new_writer(
                        out.1[segment as int].entries[entry as int].block,
                        blocks,
                    ) && w.wf(),
                }
            }),
    {
        let ghost before = self.dir_view();
        let ghost seg = before[segment as int];
        proof {
            assert(segment_wf(seg));
            assert(seg.entries[entry as int] == self.dir@[segment as int].entries@[entry as int]@);
            lemma_allocated_wf(seg, entry as int, name@, blocks, date);
            assert(seg.entries[entry as int].block + seg.entries[entry as int].length <= u16::MAX);
        }
        let count = self.dir[segment].entries.len();
        let mut new_free = self.dir[segment].entries[entry].duplicate();
        self.dir[segment].entries[entry].name = String::from_str(name);
        self.dir[segment].entries[entry].length = blocks;
        self.dir[segment].entries[entry].kind = EntryKind::Permanent;
        self.dir[segment].entries[entry].read_only = false;
        self.dir[segment].entries[entry].protected = false;
        self.dir[segment].entries[entry].job = 0;
        self.dir[segment].entries[entry].channel = 0;
        self.dir[segment].entries[entry].creation_date = Some(date);
        new_free.block = new_free.block + blocks;
        new_free.length = new_free.length - blocks;
        self.dir[segment].entries.insert(entry + 1, new_free);
        proof {
            let now = allocated(seg.entries, entry as int, name@, blocks, date);
            assert(entry_views(self.dir@[segment as int].entries@) =~= now);
            assert(self.dir_view() =~= before.update(segment as int, with_entries(seg, now)));
        }
        match self.write_directory_segment(segment) {
            Ok(()) => {},
            Err(e) => { return Err(e); },
        }
        Ok(
            RT11FileWriter {
                block: self.dir[segment].entries[entry].block,
                length: blocks,
                residue: Vec::new(),
                pos: 0,
            },
        )
    }

    /// Makes a new volume on `image` for the user who runs the program and
    /// opens it.
    pub fn mkfs(image: B) -> (r: Result<RT11FS<B>, Error>)
        requires
            image.wf(),
        ensures
            match r {
                Ok(fs) => fs.wf() && fs.image.sector_size_spec() == image.sector_size_spec() && exists|
                    owner: Seq<char>,
                |
                    #[trigger] mkfs_outcome(image.contents(), image.sector_size_spec(), owner) == Ok::<
                        (HomeView, Seq<SegmentView>, Seq<SectorState>),
                        Error,
                    >((fs.home@, fs.dir_view(), fs.image.contents())),
                Err(e) => exists|owner: Seq<char>|
                    #[trigger] mkfs_outcome(image.contents(), image.sector_size_spec(), owner) == Err::<
                        (HomeView, Seq<SegmentView>, Seq<SectorState>),
                        Error,
                    >(e),
            },
    {
        let home = HomeBlock::new();
        Self::mkfs_with(image, home)
    }

    /// Makes a new volume on `image` whose owner is `owner` and opens it.
    pub fn mkfs_owned_by(image: B, owner: &str) -> (r: Result<RT11FS<B>, Error>)
        requires
            image.wf(),
        ensures
            match r {
                Ok(fs) => fs.wf() && fs.image.sector_size_spec() == image.sector_size_spec() && mkfs_outcome(
                    image.contents(),
                    image.sector_size_spec(),
                    owner@,
                ) == Ok::<(HomeView, Seq<SegmentView>, Seq<SectorState>), Error>(
                    (fs.home@, fs.dir_view(), fs.image.contents()),
                ),
                Err(e) => mkfs_outcome(image.contents(), image.sector_size_spec(), owner@) == Err::<
                    (HomeView, Seq<SegmentView>, Seq<SectorState>),
                    Error,
                >(e),
            },
    {
        Self::mkfs_with(image, HomeBlock::owned_by(owner))
    }

    fn mkfs_with(image: B, home: HomeBlock) -> (r: Result<RT11FS<B>, Error>)
        requires
            image.wf(),
            home@ == default_home(home.owner_name@),
        ensures
            match r {
                Ok(fs) => fs.wf() && fs.image.sector_size_spec() == image.sector_size_spec() && mkfs_outcome(
                    image.contents(),
                    image.sector_size_spec(),
                    home.owner_name@,
                ) == Ok::<(HomeView, Seq<SegmentView>, Seq<SectorState>), Error>(
                    (fs.home@, fs.dir_view(), fs.image.contents()),
                ),
                Err(e) => mkfs_outcome(image.contents(), image.sector_size_spec(), home.owner_name@) == Err::<
                    (HomeView, Seq<SegmentView>, Seq<SectorState>),
                    Error,
                >(e),
            },
    {
        let mut image = image;
        let blocks = image.blocks();
        if blocks < 14 {
            return Err(Error::NoSpace);
        }
        if blocks > 65535 {
            return Err(Error::OutOfRange);
        }
        let home_bytes = match home.repr() {
            Ok(b) => b,
            Err(e) => { return Err(e); },
        };
        match image.write_blocks(1, 1, home_bytes.as_slice()) {
            Ok(()) => {},
            Err(e) => { return Err(e); },
        }
        let segment_count: u16 = 4;
        let first_data_block = DirSegment::segment_block(home.directory_start_block, segment_count + 1);
        let dir_segment = DirSegment::new(
            1,
            home.directory_start_block,
            Range { start: 1, end: segment_count },
            Range { start: first_data_block, end: blocks as u16 },
        );
        let segment_bytes = match dir_segment.repr() {
            Ok(b) => b,
            Err(e) => { return Err(e); },
        };
        match image.write_blocks(home.directory_start_block as usize, 2, segment_bytes.as_slice()) {
            Ok(()) => {},
            Err(e) => { return Err(e); },
        }
        Self::new(image)
    }

    /// The first file named `name`.
    pub fn raw_stat(&self, name: &str) -> (r: Option<&DirEntry>)
        ensures
            match r {
                Some(entry) => file_named(self.dir_view(), name@) matches Some((s, e)) && 0 <= s < self.dir@.len()
                    && 0 <= e < self.dir@[s].entries@.len() && *entry == self.dir@[s].entries@[e],
                None => file_named(self.dir_view(), name@) is None,
            },
    {
        match self.find_file_named(name) {
            Some((s, e)) => Some(&self.dir[s].entries[e]),
            None => None,
        }
    }

    /// A copy of the entry of the first file named `name`.
    pub fn stat(&self, name: &str) -> (r: Option<DirEntry>)
        ensures
            match r {
                Some(entry) => file_named(self.dir_view(), name@) matches Some((s, e)) && 0 <= s
                    < self.dir_view().len() && 0 <= e < self.dir_view()[s].entries.len() && entry@
                    == self.dir_view()[s].entries[e] && entry.name@ == name@ && entry.kind == EntryKind::Permanent,
                None => file_named(self.dir_view(), name@) is None,
            },
    {
        match self.find_file_named(name) {
            Some((s, e)) => {
                assert(self.dir_view()[s as int].entries[e as int] == self.dir@[s as int].entries@[e as int]@);
                Some(self.dir[s].entries[e].duplicate())
            },
            None => None,
        }
    }

    /// The entries of the directory in the order of the segments and of the
    /// entries in a segment: all of them, or those of kind `kind`.
    pub fn full_dir_iter(&self, kind: Option<EntryKind>) -> (list: Vec<DirEntry>)
        ensures
            entry_views(list@) == listing(self.dir_view(), kind),
    {
        let ghost dir = self.dir_view();
        let mut list: Vec<DirEntry> = Vec::new();
        let mut s: usize = 0;
        assert(dir.subrange(0, 0) =~= Seq::<SegmentView>::empty());
        assert(entry_views(list@) =~= listing(dir.subrange(0, 0), kind));
        while s < self.dir.len()
            invariant
                s <= self.dir@.len(),
                dir == self.dir_view(),
                entry_views(list@) == listing(dir.subrange(0, s as int), kind),
            decreases self.dir@.len() - s,
        {
            let seg = &self.dir[s];
            let ghost entries = dir[s as int].entries;
            let ghost before = entry_views(list@);
            let mut e: usize = 0;
            assert(entries.subrange(0, 0) =~= Seq::<EntryView>::empty());
            assert(before + selected(entries.subrange(0, 0), kind) =~= before);
            while e < seg.entries.len()
                invariant
                    s < self.dir@.len(),
                    *seg == self.dir@[s as int],
                    dir == self.dir_view(),
                    entries == dir[s as int].entries,
                    e <= seg.entries@.len(),
                    entry_views(list@) == before + selected(entries.subrange(0, e as int), kind),
                decreases seg.entries@.len() - e,
            {
                let entry = &seg.entries[e];
                let ghost had = entry_views(list@);
                proof {
                    assert(entries[e as int] == entry@);
                    assert(entries.subrange(0, e + 1).drop_last() =~= entries.subrange(0, e as int));
                }
                let wanted = match kind {
                    None => true,
                    Some(k) => k == entry.kind,
                };
                if wanted {
                    list.push(entry.duplicate());
                    assert(entry_views(list@) =~= had.push(entry@));
                    assert(before + (selected(entries.subrange(0, e as int), kind).push(entry@)) =~= had.push(entry@));
                }
                e += 1;
            }
            proof {
                assert(entries.subrange(0, seg.entries@.len() as int) =~= entries);
                assert(dir.subrange(0, s + 1).drop_last() =~= dir.subrange(0, s as int));
            }
            s += 1;
        }
        assert(dir.subrange(0, self.dir@.len() as int) =~= dir);
        list
    }

    /// Blocks that are free.
    pub fn free_blocks(&self) -> (n: usize)
        requires
            self.wf(),
        ensures
            n == dir_kind_length(self.dir_view(), EntryKind::Empty, true),
    {
        self.count_blocks(true)
    }

    /// Blocks that files hold, written or being written.
    pub fn used_blocks(&self) -> (n: usize)
        requires
            self.wf(),
        ensures
            n == dir_kind_length(self.dir_view(), EntryKind::Empty, false),
    {
        self.count_blocks(false)
    }

    /// Blocks of the free entries, or of the others if `free` is false.
    fn count_blocks(&self, free: bool) -> (n: usize)
        requires
            self.wf(),
        ensures
            n == dir_kind_length(self.dir_view(), EntryKind::Empty, free),
    {
        let ghost dir = self.dir_view();
        let mut n: usize = 0;
        let mut s: usize = 0;
        assert(dir.subrange(0, 0) =~= Seq::<SegmentView>::empty());
        while s < self.dir.len()
            invariant
                s <= self.dir@.len(),
                dir == self.dir_view(),
                dir_wf(dir),
                n == dir_kind_length(dir.subrange(0, s as int), EntryKind::Empty, free),
                n <= s * 65535,
            decreases self.dir@.len() - s,
        {
            let seg = &self.dir[s];
            let ghost entries = dir[s as int].entries;
            let mut part: usize = 0;
            let mut e: usize = 0;
            proof {
                assert(segment_wf(dir[s as int]));
                assert(entries.subrange(0, 0) =~= Seq::<EntryView>::empty());
                lemma_prefix_total(dir[s as int], 0);
            }
            while e < seg.entries.len()
                invariant
                    s < self.dir@.len(),
                    *seg == self.dir@[s as int],
                    dir == self.dir_view(),
                    entries == dir[s as int].entries,
                    segment_wf(dir[s as int]),
                    e <= seg.entries@.len(),
                    part == kind_length(entries.subrange(0, e as int), EntryKind::Empty, free),
                    part <= total_length(entries.subrange(0, e as int)) <= 65535,
                decreases seg.entries@.len() - e,
            {
                let entry = &seg.entries[e];
                proof {
                    assert(entries[e as int] == entry@);
                    assert(entries.subrange(0, e + 1).drop_last() =~= entries.subrange(0, e as int));
                    lemma_prefix_total(dir[s as int], e + 1);
                }
                if (entry.kind == EntryKind::Empty) == free {
                    part = part + entry.length;
                }
                e += 1;
            }
            proof {
                assert(entries.subrange(0, seg.entries@.len() as int) =~= entries);
                assert(dir.subrange(0, s + 1).drop_last() =~= dir.subrange(0, s as int));
                assert((s + 1) * 65535 == s * 65535 + 65535) by (nonlinear_arith);
                assert(s * 65535 <= 65535 * 65535) by (nonlinear_arith)
                    requires s <= 65535;
            }
            n = n + part;
            s += 1;
        }
        assert(dir.subrange(0, self.dir@.len() as int) =~= dir);
        n
    }

    /// The blocks of the first file named `name`.
    pub fn read_file(&self, name: &str) -> (r: Result<Vec<u8>, Error>)
        requires
            self.wf(),
        ensures
            read_view(r) == read_file_outcome(
                self.dir_view(),
                self.image.contents(),
                self.image.sector_size_spec(),
                name@,
            ),
    {
        match self.raw_stat(name) {
            None => Err(Error::NotFound),
            Some(file) => {
                proof {
                    let found = file_named(self.dir_view(), name@).unwrap();
                    assert(self.dir_view()[found.0].entries[found.1] == file@);
                }
                self.image.read_blocks(file.block, file.length)
            },
        }
    }

    /// Makes a file named `name` that holds `contents`, dated `date`, in
    /// place of a file of that name.
    pub fn write_file_dated(&mut self, name: &str, contents: &[u8], date: Date) -> (r: Result<(), Error>)
        requires
            old(self).wf(),
            date.wf(),
        ensures
            final(self).wf(),
            final(self).home == old(self).home,
            final(self).image.sector_size_spec() == old(self).image.sector_size_spec(),
            (r, final(self).dir_view(), final(self).image.contents()) == write_file_outcome(
                old(self).dir_view(),
                old(self).home.directory_start_block,
                old(self).image.contents(),
                old(self).image.sector_size_spec(),
                name@,
                contents@,
                date,
            ),
    {
        let mut writer = match self.create_dated(name, contents.len(), date) {
            Ok(w) => w,
            Err(e) => { return Err(e); },
        };
        match writer.write(&mut self.image, contents) {
            Ok(_) => {},
            Err(e) => { return Err(e); },
        }
        writer.flush(&mut self.image)
    }

    /// Makes a file named `name` that holds `contents`, dated with the
    /// clock's day in universal time, in place of a file of that name. Where
    /// the clock shows no day, nothing is changed and the answer is the error
    /// for a date out of range.
    pub fn write_file(&mut self, name: &str, contents: &[u8]) -> (r: Result<(), Error>)
        requires
            old(self).wf(),
        ensures
            final(self).wf(),
            final(self).home == old(self).home,
            final(self).image.sector_size_spec() == old(self).image.sector_size_spec(),
            written_today(
                old(self).dir_view(),
                old(self).home.directory_start_block,
                old(self).image.contents(),
                old(self).image.sector_size_spec(),
                name@,
                contents@,
                r,
                final(self).dir_view(),
                final(self).image.contents(),
            ),
    {
        match today() {
            Some(date) => self.write_file_dated(name, contents, date),
            None => Err(Error::DateOutOfRange),
        }
    }

    /// All entries of the directory; the path must be the root.
    pub fn dir_iter(&self, path: &str) -> (r: Result<Vec<DirEntry>, Error>)
        ensures
            match r {
                Ok(list) => is_root(path@) && entry_views(list@) == listing(self.dir_view(), None),
                Err(e) => !is_root(path@) && e == Error::BadPath,
            },
    {
        if !path_is_root(path) {
            return Err(Error::BadPath);
        }
        Ok(self.full_dir_iter(None))
    }

    /// The entries of the files; the path must be the root.
    pub fn read_dir(&self, path: &str) -> (r: Result<Vec<DirEntry>, Error>)
        ensures
            match r {
                Ok(list) => is_root(path@) && entry_views(list@) == listing(
                    self.dir_view(),
                    Some(EntryKind::Permanent),
                ),
                Err(e) => !is_root(path@) && e == Error::BadPath,
            },
    {
        if !path_is_root(path) {
            return Err(Error::BadPath);
        }
        Ok(self.full_dir_iter(Some(EntryKind::Permanent)))
    }

    /// The name of the filesystem.
    pub fn filesystem_name(&self) -> (name: &'static str)
        ensures
            name@ == "RT-11"@,
    {
        "RT-11"
    }

    /// The device that holds the volume.
    pub fn block_device(&self) -> (dev: &B)
        ensures
            *dev == self.image,
    {
        &self.image
    }
}

/// The path names the root directory: it is `/` or has no characters.
pub open spec fn is_root(path: Seq<char>) -> bool {
    path.len() == 0 || path == seq!['/']
}

/// The path names the root directory.
pub fn path_is_root(path: &str) -> (b: bool)
    ensures
        b == is_root(path@),
{
    let n = path.unicode_len();
    if n == 0 {
        return true;
    }
    let b = n == 1 && path.get_char(0) == '/';
    proof {
        if b {
            assert(path@ =~= seq!['/']);
        }
    }
    b
}

/// The two texts are the same.
pub fn same_text(a: &str, b: &str) -> (same: bool)
    ensures
        same == (a@ == b@),
{
    String::from_str(a) == String::from_str(b)
}

/// What giving the file named `src` the name `dest` answers, and the
/// directory and the sectors afterwards: nothing is done where the names
/// are the same; a file named `dest` is deleted first.
pub open spec fn move_outcome(
    dir: Seq<SegmentView>,
    contents: Seq<SectorState>,
    size: int,
    src: Seq<char>,
    dest: Seq<char>,
) -> (Result<(), Error>, Seq<SegmentView>, Seq<SectorState>) {
    if src == dest {
        (Ok(()), dir, contents)
    } else if file_named(dir, src) is None {
        (Err(Error::NotFound), dir, contents)
    } else if file_named(dir, dest) is Some {
        let d = delete_outcome(dir, contents, size, dest);
        match d.0 {
            Err(e) => d,
            Ok(_) => rename_outcome(d.1, d.2, size, src, dest),
        }
    } else {
        rename_outcome(dir, contents, size, src, dest)
    }
}

/// The entries of kind `kind`, or all of them if `kind` is `None`, in
/// their order.
pub open spec fn selected(entries: Seq<EntryView>, kind: Option<EntryKind>) -> Seq<EntryView>
    decreases entries.len(),
{
    if entries.len() == 0 {
        Seq::empty()
    } else if kind is None || kind == Some(entries.last().kind) {
        selected(entries.drop_last(), kind).push(entries.last())
    } else {
        selected(entries.drop_last(), kind)
    }
}

/// The entries of kind `kind` of all segments, or all entries if `kind` is
/// `None`, in the order of the segments and of the entries in a segment.
pub open spec fn listing(dir: Seq<SegmentView>, kind: Option<EntryKind>) -> Seq<EntryView>
    decreases dir.len(),
{
    if dir.len() == 0 {
        Seq::empty()
    } else {
        listing(dir.drop_last(), kind) + selected(dir.last().entries, kind)
    }
}

/// Blocks of the entries of kind `kind` in all segments, or of those of
/// the other kinds if `wanted` is false.
pub open spec fn dir_kind_length(dir: Seq<SegmentView>, kind: EntryKind, wanted: bool) -> int
    decreases dir.len(),
{
    if dir.len() == 0 {
        0
    } else {
        dir_kind_length(dir.drop_last(), kind, wanted) + kind_length(dir.last().entries, kind, wanted)
    }
}

/// Blocks of all entries of all segments.
pub open spec fn dir_total_length(dir: Seq<SegmentView>) -> int
    decreases dir.len(),
{
    if dir.len() == 0 {
        0
    } else {
        dir_total_length(dir.drop_last()) + total_length(dir.last().entries)
    }
}

/// What reading the first file named `name` gives: its blocks.
pub open spec fn read_file_outcome(dir: Seq<SegmentView>, contents: Seq<SectorState>, size: int, name: Seq<char>) -> SectorState {
    match file_named(dir, name) {
        None => Err(Error::NotFound),
        Some((s, e)) => read_blocks_spec(contents, size, dir[s].entries[e].block as int, dir[s].entries[e].length as int),
    }
}

/// What making a file named `name` that holds `data` answers, and the
/// directory and the sectors afterwards: the entry is made, the data is
/// written to its blocks, and the last block is filled up with zeros.
pub open spec fn write_file_outcome(
    dir: Seq<SegmentView>,
    start: u16,
    contents: Seq<SectorState>,
    size: int,
    name: Seq<char>,
    data: Seq<u8>,
    date: Date,
) -> (Result<(), Error>, Seq<SegmentView>, Seq<SectorState>) {
    let made = create_outcome(dir, start, contents, size, name, data.len() as usize, date);
    match made.0 {
        Err(e) => (Err(e), made.1, made.2),
        Ok((s, e)) => {
            let w = new_writer(made.1[s].entries[e].block, blocks_for(data.len() as usize));
            let written = write_outcome(w, made.2, size, data);
            match written.0 {
                Err(e) => (Err(e), made.1, written.2),
                Ok(_) => {
                    let flushed = flush_outcome(written.1, written.2, size);
                    (flushed.0, made.1, flushed.2)
                },
            }
        },
    }
}

/// What making a new volume for `owner` gives: the home block, the
/// directory and the sectors afterwards. The home block goes to block 1 and
/// the first of four directory segments to block 6, with one entry for the
/// free blocks from block 14 to the end of the device; then the volume is
/// read as any other. A device of less than 14 blocks or more than 65535 is
/// refused.
pub open spec fn mkfs_outcome(contents: Seq<SectorState>, size: int, owner: Seq<char>) -> Result<
    (HomeView, Seq<SegmentView>, Seq<SectorState>),
    Error,
> {
    let blocks = contents.len() * size / 512;
    if blocks < 14 {
        Err(Error::NoSpace)
    } else if blocks > 65535 {
        Err(Error::OutOfRange)
    } else {
        match home_bytes(default_home(owner)) {
            Err(e) => Err(e),
            Ok(home) => {
                let w1 = write_blocks_spec(contents, size, 1, 1, home);
                match w1.0 {
                    Err(e) => Err(e),
                    Ok(_) => {
                        let seg = new_segment(
                            1,
                            6,
                            Range { start: 1, end: 4 },
                            Range { start: 14, end: blocks as u16 },
                        );
                        let w2 = segment_written(w1.1, size, seg);
                        match w2.0 {
                            Err(e) => Err(e),
                            Ok(_) => match loaded(w2.1, size) {
                                Err(e) => Err(e),
                                Ok((h, d)) => Ok((h, d, w2.1)),
                            },
                        }
                    },
                }
            },
        }
    }
}

/// Writes the blocks of a file one after the other, keeping what does not
/// fill a block until there is more.
///
/// The writer holds no reference to the device: each call names the device
/// to write to. Nothing is written when a writer is dropped. What waits in
/// `residue` reaches the device only by `flush` or `close`, so a caller
/// ends every file with one of the two and sees the error of the last
/// write there.
pub struct RT11FileWriter {
    /// First block of the file.
    pub block: usize,
    /// Blocks that the file may take.
    pub length: usize,
    /// Bytes that wait to be written.
    pub residue: Vec<u8>,
    /// Blocks written so far.
    pub pos: usize,
}

/// A writer as a mathematical value.
pub struct WriterView {
    pub block: usize,
    pub length: usize,
    pub residue: Seq<u8>,
    pub pos: usize,
}

impl View for RT11FileWriter {
    type V = WriterView;

    open spec fn view(&self) -> WriterView {
        WriterView { block: self.block, length: self.length, residue: self.residue@, pos: self.pos }
    }
}

/// The writer for `length` blocks from `block` on with nothing written.
pub open spec fn new_writer(block: usize, length: usize) -> WriterView {
    WriterView { block, length, residue: Seq::empty(), pos: 0 }
}

/// The writer is consistent: it has written no more blocks than it may,
/// what waits is no more than a block and nothing once all blocks are
/// written, and the last block has a number.
pub open spec fn writer_wf(w: WriterView) -> bool {
    &&& w.pos <= w.length
    &&& w.residue.len() <= 512
    &&& w.pos == w.length ==> w.residue.len() == 0
    &&& w.block + w.length <= usize::MAX
}

impl RT11FileWriter {
    pub open spec fn wf(&self) -> bool {
        writer_wf(self@)
    }
}

/// Bytes that the writer can still take.
pub open spec fn capacity(w: WriterView) -> int {
    (w.length - w.pos) * 512 - w.residue.len()
}

/// Bytes of `buf` that are taken: all of them, or as many as the file has
/// room for.
pub open spec fn taken_of(w: WriterView, buf: Seq<u8>) -> int {
    if buf.len() <= capacity(w) { buf.len() as int } else { capacity(w) }
}

/// Bytes of `taken` that go to fill up what waits: none where nothing
/// waits, else as many as a block still lacks.
pub open spec fn fill_of(w: WriterView, taken: int) -> int {
    if w.residue.len() == 0 {
        0
    } else if taken <= 512 - w.residue.len() {
        taken
    } else {
        512 - w.residue.len()
    }
}

/// What adding `part` to what waits answers, and the writer and the
/// sectors afterwards: once a block is full it is written.
pub open spec fn fill_outcome(w: WriterView, contents: Seq<SectorState>, size: int, part: Seq<u8>) -> (
    Result<(), Error>,
    WriterView,
    Seq<SectorState>,
) {
    let filled = w.residue + part;
    if w.residue.len() > 0 && filled.len() == 512 {
        let wr = write_blocks_spec(contents, size, w.block + w.pos, 1, filled);
        match wr.0 {
            Err(e) => (Err(e), WriterView { residue: filled, ..w }, wr.1),
            Ok(_) => (Ok(()), WriterView { residue: Seq::empty(), pos: (w.pos + 1) as usize, ..w }, wr.1),
        }
    } else {
        (Ok(()), WriterView { residue: filled, ..w }, contents)
    }
}

/// What writing the whole blocks of `remains` answers, and the writer and
/// the sectors afterwards: the blocks are written at once and the rest
/// waits.
pub open spec fn bulk_outcome(w: WriterView, contents: Seq<SectorState>, size: int, remains: Seq<u8>) -> (
    Result<(), Error>,
    WriterView,
    Seq<SectorState>,
) {
    let blocks = remains.len() as int / 512;
    if blocks > 0 {
        let wr = write_blocks_spec(contents, size, w.block + w.pos, blocks, remains.subrange(0, blocks * 512));
        match wr.0 {
            Err(e) => (Err(e), w, wr.1),
            Ok(_) => (
                Ok(()),
                WriterView {
                    pos: (w.pos + blocks) as usize,
                    residue: w.residue + remains.subrange(blocks * 512, remains.len() as int),
                    ..w
                },
                wr.1,
            ),
        }
    } else {
        (Ok(()), WriterView { residue: w.residue + remains, ..w }, contents)
    }
}

/// What writing `buf` answers, and the writer and the sectors afterwards.
/// As much of `buf` is taken as the file has room for. What waits is filled
/// up to a block and written, whole blocks are written at once, and the
/// rest waits.
pub open spec fn write_outcome(w: WriterView, contents: Seq<SectorState>, size: int, buf: Seq<u8>) -> (
    Result<usize, Error>,
    WriterView,
    Seq<SectorState>,
) {
    if w.pos == w.length {
        (Err(Error::NoSpace), w, contents)
    } else {
        let taken = taken_of(w, buf);
        let fill = fill_of(w, taken);
        let first = fill_outcome(w, contents, size, buf.subrange(0, fill));
        match first.0 {
            Err(e) => (Err(e), first.1, first.2),
            Ok(_) => {
                let second = bulk_outcome(first.1, first.2, size, buf.subrange(fill, taken));
                match second.0 {
                    Err(e) => (Err(e), second.1, second.2),
                    Ok(_) => (Ok(taken as usize), second.1, second.2),
                }
            },
        }
    }
}

/// What writing out what waits answers, and the writer and the sectors
/// afterwards: what waits is filled up with zeros to a block and written.
pub open spec fn flush_outcome(w: WriterView, contents: Seq<SectorState>, size: int) -> (
    Result<(), Error>,
    WriterView,
    Seq<SectorState>,
) {
    if w.residue.len() == 0 {
        (Ok(()), w, contents)
    } else if w.pos == w.length {
        (Err(Error::NoSpace), w, contents)
    } else {
        let padded = w.residue + super::zeros(512 - w.residue.len());
        let wr = write_blocks_spec(contents, size, w.block + w.pos, 1, padded);
        match wr.0 {
            Err(e) => (Err(e), WriterView { residue: padded, ..w }, wr.1),
            Ok(_) => (Ok(()), WriterView { residue: Seq::empty(), pos: (w.pos + 1) as usize, ..w }, wr.1),
        }
    }
}

impl RT11FileWriter {
    /// Adds `part` to what waits and writes the block once it is full.
    fn fill<B: BlockDevice>(&mut self, image: &mut B, part: &[u8]) -> (r: Result<(), Error>)
        requires
            old(self).pos < old(self).length,
            old(self).block + old(self).length <= usize::MAX,
            old(self).residue@.len() + part@.len() <= 512,
            old(image).wf(),
        ensures
            final(image).wf(),
            final(image).sector_size_spec() == old(image).sector_size_spec(),
            final(image).contents().len() == old(image).contents().len(),
            (r, final(self)@, final(image).contents()) == fill_outcome(
                old(self)@,
                old(image).contents(),
                old(image).sector_size_spec(),
                part@,
            ),
    {
        let waiting = self.residue.len();
        self.residue.extend_from_slice(part);
        assert(self.residue@ =~= old(self).residue@ + part@);
        if waiting > 0 && self.residue.len() == BLOCK_SIZE {
            match image.write_blocks(self.block + self.pos, 1, self.residue.as_slice()) {
                Ok(()) => {},
                Err(e) => { return Err(e); },
            }
            self.pos = self.pos + 1;
            self.residue.clear();
            assert(self.residue@ =~= Seq::<u8>::empty());
        }
        Ok(())
    }

    /// Writes the whole blocks of `remains` at once and lets the rest wait.
    fn bulk<B: BlockDevice>(&mut self, image: &mut B, remains: &[u8]) -> (r: Result<(), Error>)
        requires
            old(self).pos + remains@.len() / 512 <= old(self).length,
            old(self).block + old(self).length <= usize::MAX,
            old(image).wf(),
        ensures
            final(image).wf(),
            final(image).sector_size_spec() == old(image).sector_size_spec(),
            final(image).contents().len() == old(image).contents().len(),
            (r, final(self)@, final(image).contents()) == bulk_outcome(
                old(self)@,
                old(image).contents(),
                old(image).sector_size_spec(),
                remains@,
            ),
    {
        let blocks = remains.len() / BLOCK_SIZE;
        if blocks > 0 {
            match image.write_blocks(
                self.block + self.pos,
                blocks,
                vstd::slice::slice_subrange(remains, 0, blocks * BLOCK_SIZE),
            ) {
                Ok(()) => {},
                Err(e) => { return Err(e); },
            }
            self.pos = self.pos + blocks;
            self.residue.extend_from_slice(vstd::slice::slice_subrange(remains, blocks * BLOCK_SIZE, remains.len()));
            assert(self.residue@ =~= old(self).residue@ + remains@.subrange(blocks * 512, remains@.len() as int));
        } else {
            self.residue.extend_from_slice(remains);
            assert(self.residue@ =~= old(self).residue@ + remains@);
        }
        Ok(())
    }

    /// Writes as much of `buf` as the file has room for and says how much
    /// that was.
    pub fn write<B: BlockDevice>(&mut self, image: &mut B, buf: &[u8]) -> (r: Result<usize, Error>)
        requires
            old(self).wf(),
            old(image).wf(),
        ensures
            final(self).wf(),
            final(image).wf(),
            final(image).sector_size_spec() == old(image).sector_size_spec(),
            final(image).contents().len() == old(image).contents().len(),
            (r, final(self)@, final(image).contents()) == write_outcome(
                old(self)@,
                old(image).contents(),
                old(image).sector_size_spec(),
                buf@,
            ),
    {
        if self.pos == self.length {
            return Err(Error::NoSpace);
        }
        let room: u128 = (self.length - self.pos) as u128 * 512 - self.residue.len() as u128;
        let taken: usize = if (buf.len() as u128) <= room { buf.len() } else { room as usize };
        let fill: usize = if self.residue.len() == 0 {
            0
        } else if taken <= BLOCK_SIZE - self.residue.len() {
            taken
        } else {
            BLOCK_SIZE - self.residue.len()
        };
        match self.fill(image, vstd::slice::slice_subrange(buf, 0, fill)) {
            Ok(()) => {},
            Err(e) => { return Err(e); },
        }
        match self.bulk(image, vstd::slice::slice_subrange(buf, fill, taken)) {
            Ok(()) => {},
            Err(e) => { return Err(e); },
        }
        Ok(taken)
    }

    /// Writes out what waits, filled up with zeros to a block.
    pub fn flush<B: BlockDevice>(&mut self, image: &mut B) -> (r: Result<(), Error>)
        requires
            old(self).wf(),
            old(image).wf(),
        ensures
            final(self).wf(),
            final(image).wf(),
            final(image).sector_size_spec() == old(image).sector_size_spec(),
            final(image).contents().len() == old(image).contents().len(),
            (r, final(self)@, final(image).contents()) == flush_outcome(
                old(self)@,
                old(image).contents(),
                old(image).sector_size_spec(),
            ),
    {
        if self.residue.len() > 0 {
            if self.pos == self.length {
                return Err(Error::NoSpace);
            }
            let ghost start = self.residue@;
            let pad = BLOCK_SIZE - self.residue.len();
            crate::bytes::push_zeros(&mut self.residue, pad);
            assert(self.residue@ =~= start + super::zeros(512 - start.len()));
            match image.write_blocks(self.block + self.pos, 1, self.residue.as_slice()) {
                Ok(()) => {},
                Err(e) => { return Err(e); },
            }
            self.pos = self.pos + 1;
            self.residue.clear();
        }
        Ok(())
    }

    /// Writes out what waits and ends the writing.
    pub fn close<B: BlockDevice>(self, image: &mut B) -> (r: Result<(), Error>)
        requires
            self.wf(),
            old(image).wf(),
        ensures
            final(image).wf(),
            final(image).sector_size_spec() == old(image).sector_size_spec(),
            final(image).contents().len() == old(image).contents().len(),
            r == flush_outcome(self@, old(image).contents(), old(image).sector_size_spec()).0,
            final(image).contents() == flush_outcome(self@, old(image).contents(), old(image).sector_size_spec()).2,
    {
        let mut writer = self;
        writer.flush(image)
    }
}

} // verus!
