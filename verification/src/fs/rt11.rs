use vstd::prelude::*;

use core::ops::Range;
use crate::bytes::push_zeros;
use crate::bytes::{push_word, read_word, word_at, word_bytes};
use crate::date::{Date};
use crate::block::BLOCK_SIZE;
use crate::error::Error;
use crate::name::{decode_filename, decoded_filename, encode_filename, filename_words, valid_filename};

pub mod home;
pub use self::home::HomeBlock;
pub use self::volume::{RT11FileWriter, RT11FS};
pub mod volume;
pub mod laws;

verus! {

/// Status bit of an entry that is being written.
pub const STATUS_E_TENT: u16 = 0o400;

/// Status bit of an entry that stands for free blocks.
pub const STATUS_E_MPTY: u16 = 0o1000;

/// Status bit of an entry that stands for a file.
pub const STATUS_E_PERM: u16 = 0o2000;

/// Status bit of the mark that ends a segment.
pub const STATUS_E_EOS: u16 = 0o4000;

/// Status bit of a file that must not be written.
pub const STATUS_E_READ: u16 = 0o40000;

/// Status bit of a file that must not be deleted.
pub const STATUS_E_PROT: u16 = 0o100000;

/// Status bit of a file that begins with prefix blocks.
pub const STATUS_E_PRE: u16 = 0o20;

/// The bit `mask`, a power of two, is set in `word`.
pub open spec fn has_bit(word: u16, mask: u16) -> bool {
    (word / mask) % 2 == 1
}

fn test_bit(word: u16, mask: u16) -> (b: bool)
    requires
        mask > 0,
    ensures
        b == has_bit(word, mask),
{
    (word / mask) % 2 == 1
}

fn status_of(kind: EntryKind, read_only: bool, protected: bool, prefix_block: bool) -> (w: u16)
    ensures
        w == status_word(kind, read_only, protected, prefix_block),
{
    let kind_bits: u16 = match kind {
        EntryKind::Empty => STATUS_E_MPTY,
        EntryKind::Tentative => STATUS_E_TENT,
        EntryKind::Permanent => STATUS_E_PERM,
    };
    let read_bit: u16 = if read_only { STATUS_E_READ } else { 0 };
    let prot_bit: u16 = if protected { STATUS_E_PROT } else { 0 };
    let pre_bit: u16 = if prefix_block { STATUS_E_PRE } else { 0 };
    kind_bits + read_bit + prot_bit + pre_bit
}

/// What an entry of the directory stands for.
#[derive(Copy, Clone, Debug, PartialEq, Eq, Structural)]
pub enum EntryKind {
    Tentative,
    Empty,
    Permanent,
}

/// An entry of the directory.
pub struct DirEntry {
    pub kind: EntryKind,
    pub read_only: bool,
    pub protected: bool,
    pub prefix_block: bool,
    pub name: String,
    pub length: usize,
    pub job: u8,
    pub channel: u8,
    pub creation_date: Option<Date>,
    pub extra: Vec<u16>,
    /// First block of the entry; not stored, it follows from the lengths of
    /// the entries before it.
    pub block: usize,
}

/// An entry of the directory as a mathematical value.
pub struct EntryView {
    pub kind: EntryKind,
    pub read_only: bool,
    pub protected: bool,
    pub prefix_block: bool,
    pub name: Seq<char>,
    pub length: usize,
    pub job: u8,
    pub channel: u8,
    pub creation_date: Option<Date>,
    pub extra: Seq<u16>,
    pub block: usize,
}

impl View for DirEntry {
    type V = EntryView;

    open spec fn view(&self) -> EntryView {
        EntryView {
            kind: self.kind,
            read_only: self.read_only,
            protected: self.protected,
            prefix_block: self.prefix_block,
            name: self.name@,
            length: self.length,
            job: self.job,
            channel: self.channel,
            creation_date: self.creation_date,
            extra: self.extra@,
            block: self.block,
        }
    }
}

/// The date word of a date: two bits of age, four of month, five of day
/// and five of year, counted from 1972 in 32-year ages.
pub open spec fn date_word(date: Date) -> u16 {
    let years = date.year - 1972;
    ((years / 32) * 16384 + date.month * 1024 + date.day * 32 + years % 32) as u16
}

/// The date can be packed: its year is from 1972 to 2099.
pub open spec fn date_packable(date: Date) -> bool {
    1972 <= date.year <= 2099
}

/// The word of an optional date; no date is 0.
pub open spec fn encoded_date(date: Option<Date>) -> Result<u16, Error> {
    match date {
        None => Ok(0u16),
        Some(d) => if date_packable(d) { Ok(date_word(d)) } else { Err(Error::DateOutOfRange) },
    }
}

/// The date that the fields of a date word name.
pub open spec fn word_date(raw: u16) -> Date {
    Date {
        year: (1972 + raw % 32 + (raw / 16384) * 32) as i32,
        month: ((raw / 1024) % 16) as u32,
        day: ((raw / 32) % 32) as u32,
    }
}

/// The optional date of a date word: 0 is no date; a word whose fields name
/// no day of the calendar is refused.
pub open spec fn decoded_date(raw: u16) -> Result<Option<Date>, Error> {
    if raw == 0 {
        Ok(None)
    } else if word_date(raw).wf() {
        Ok(Some(word_date(raw)))
    } else {
        Err(Error::Format)
    }
}

proof fn lemma_date_fields(a: int, m: int, d: int, y: int)
    requires
        0 <= a <= 3,
        0 <= m <= 15,
        0 <= d <= 31,
        0 <= y <= 31,
    ensures
        ({
            let w = a * 16384 + m * 1024 + d * 32 + y;
            &&& 0 <= w < 65536
            &&& w % 32 == y
            &&& w / 16384 == a
            &&& (w / 1024) % 16 == m
            &&& (w / 32) % 32 == d
        }),
{
    let w = a * 16384 + m * 1024 + d * 32 + y;
    assert(w / 32 == a * 512 + m * 32 + d);
    assert(w / 1024 == a * 16 + m);
}

/// Packing a date from 1972 to 2099 and unpacking the word gives the date
/// back, and the word of a date is never 0, the word of no date.
pub proof fn lemma_date_roundtrip(date: Date)
    requires
        date.wf(),
        date_packable(date),
    ensures
        date_word(date) != 0,
        decoded_date(date_word(date)) == Ok::<Option<Date>, Error>(Some(date)),
        decoded_date(0) == Ok::<Option<Date>, Error>(None),
        encoded_date(None) == Ok::<u16, Error>(0),
{
    let years = date.year - 1972;
    assert(1 <= date.month <= 12 && 1 <= date.day <= 31);
    lemma_date_fields(years / 32, date.month as int, date.day as int, years % 32);
    let w = date_word(date);
    assert(w == (years / 32) * 16384 + date.month * 1024 + date.day * 32 + years % 32);
    assert(word_date(w) == date);
}

/// The status word of an entry with the given kind and flags.
pub open spec fn status_word(kind: EntryKind, read_only: bool, protected: bool, prefix_block: bool) -> u16 {
    ((match kind {
        EntryKind::Empty => STATUS_E_MPTY as int,
        EntryKind::Tentative => STATUS_E_TENT as int,
        EntryKind::Permanent => STATUS_E_PERM as int,
    }) + (if read_only { STATUS_E_READ as int } else { 0 }) + (if protected { STATUS_E_PROT as int } else { 0 }) + (
    if prefix_block { STATUS_E_PRE as int } else { 0 })) as u16
}

/// The words `words` as bytes, each low byte first.
pub open spec fn words_bytes(words: Seq<u16>) -> Seq<u8>
    decreases words.len(),
{
    if words.len() == 0 {
        Seq::empty()
    } else {
        words_bytes(words.drop_last()) + word_bytes(words.last())
    }
}

/// The bytes of an entry on disk: status, three name words, length, job and
/// channel, date, and the extra words.
#[verifier::opaque]
pub open spec fn entry_bytes(e: EntryView) -> Result<Seq<u8>, Error> {
    if !valid_filename(e.name) {
        Err(Error::NameInvalid)
    } else {
        match encoded_date(e.creation_date) {
            Err(err) => Err(err),
            Ok(date) => Ok(
                word_bytes(status_word(e.kind, e.read_only, e.protected, e.prefix_block)) + words_bytes(
                    filename_words(e.name),
                ) + word_bytes(e.length as u16) + seq![e.job, e.channel] + word_bytes(date) + words_bytes(e.extra),
            ),
        }
    }
}

/// The `n` words of `buf` from byte `at` on.
pub open spec fn words_at(buf: Seq<u8>, at: int, n: int) -> Seq<u16> {
    Seq::new(n as nat, |i: int| word_at(buf, at + 2 * i))
}

/// What is read at byte `at` of a segment: the end mark, an entry that
/// begins at block `data_block`, or the reason that it cannot be read.
#[verifier::opaque]
pub open spec fn parsed_entry(buf: Seq<u8>, at: int, data_block: usize, extra_bytes: u16) -> Result<
    Option<EntryView>,
    Error,
> {
    if at + 2 > buf.len() {
        Err(Error::Format)
    } else {
        let status = word_at(buf, at);
        if has_bit(status, STATUS_E_EOS) {
            Ok(None)
        } else if !has_bit(status, STATUS_E_TENT) && !has_bit(status, STATUS_E_MPTY) && !has_bit(
            status,
            STATUS_E_PERM,
        ) {
            Err(Error::Format)
        } else if at + 14 + (extra_bytes / 2) * 2 > buf.len() {
            Err(Error::Format)
        } else {
            match decoded_date(word_at(buf, at + 12)) {
                Err(e) => Err(e),
                Ok(date) => Ok(
                    Some(
                        EntryView {
                            kind: if has_bit(status, STATUS_E_TENT) {
                                EntryKind::Tentative
                            } else if has_bit(status, STATUS_E_MPTY) {
                                EntryKind::Empty
                            } else {
                                EntryKind::Permanent
                            },
                            read_only: has_bit(status, STATUS_E_READ),
                            protected: has_bit(status, STATUS_E_PROT),
                            prefix_block: has_bit(status, STATUS_E_PRE),
                            name: decoded_filename(words_at(buf, at + 2, 3)),
                            length: word_at(buf, at + 8) as usize,
                            job: buf[at + 10],
                            channel: buf[at + 11],
                            creation_date: date,
                            extra: words_at(buf, at + 14, extra_bytes as int / 2),
                            block: data_block,
                        },
                    ),
                ),
            }
        }
    }
}

pub proof fn lemma_words_bytes_push(words: Seq<u16>, w: u16)
    ensures
        words_bytes(words.push(w)) == words_bytes(words) + word_bytes(w),
{
    assert(words.push(w).drop_last() =~= words);
}

/// Appends the words to `out`, each low byte first.
pub fn push_words(out: &mut Vec<u8>, words: &[u16])
    ensures
        final(out)@ == old(out)@ + words_bytes(words@),
{
    let n = words.len();
    let mut i: usize = 0;
    assert(words@.subrange(0, 0) =~= Seq::<u16>::empty());
    assert(out@ =~= old(out)@ + words_bytes(words@.subrange(0, 0)));
    while i < n
        invariant
            n == words@.len(),
            i <= n,
            out@ == old(out)@ + words_bytes(words@.subrange(0, i as int)),
        decreases n - i,
    {
        push_word(out, words[i]);
        proof {
            lemma_words_bytes_push(words@.subrange(0, i as int), words@[i as int]);
            assert(words@.subrange(0, i as int).push(words@[i as int]) =~= words@.subrange(0, i + 1));
            assert(out@ =~= old(out)@ + words_bytes(words@.subrange(0, i + 1)));
        }
        i += 1;
    }
    assert(words@.subrange(0, n as int) =~= words@);
}

/// The `n` words of `buf` from byte `at` on.
pub fn read_words(buf: &[u8], at: usize, n: usize) -> (out: Vec<u16>)
    requires
        at + 2 * n <= buf@.len(),
    ensures
        out@ == words_at(buf@, at as int, n as int),
{
    let mut out: Vec<u16> = Vec::new();
    let total = buf.len();
    let mut i: usize = 0;
    while i < n
        invariant
            total == buf@.len(),
            at + 2 * n <= buf@.len(),
            i <= n,
            out@ == words_at(buf@, at as int, i as int),
        decreases n - i,
    {
        out.push(read_word(buf, at + 2 * i));
        i += 1;
        assert(out@ =~= words_at(buf@, at as int, i as int));
    }
    out
}

impl DirEntry {
    /// An entry that stands for `blocks` free blocks from `data_block` on.
    pub fn new_empty(data_block: usize, blocks: usize) -> (e: DirEntry)
        ensures
            e@ == empty_entry(data_block, blocks),
    {
        DirEntry {
            kind: EntryKind::Empty,
            name: String::from_str("EMPTYF.ILE"),
            length: blocks,
            block: data_block,
            read_only: false,
            protected: false,
            prefix_block: false,
            job: 0,
            channel: 0,
            creation_date: None,
            extra: Vec::new(),
        }
    }

    /// A copy of the entry.
    pub fn duplicate(&self) -> (e: DirEntry)
        ensures
            e@ == self@,
    {
        DirEntry {
            kind: self.kind,
            name: self.name.clone(),
            length: self.length,
            block: self.block,
            read_only: self.read_only,
            protected: self.protected,
            prefix_block: self.prefix_block,
            job: self.job,
            channel: self.channel,
            creation_date: self.creation_date,
            extra: self.extra.clone(),
        }
    }

    /// Reads the entry at byte `at` of a segment; `None` is the mark that
    /// ends the segment.
    pub fn from_repr(data_block: usize, extra_bytes: u16, buf: &[u8], at: usize) -> (r: Result<
        Option<DirEntry>,
        Error,
    >)
        ensures
            match r {
                Ok(Some(e)) => parsed_entry(buf@, at as int, data_block, extra_bytes) == Ok::<Option<EntryView>, Error>(Some(e@))
                    && at + 14 + (extra_bytes / 2) * 2 <= buf@.len()
                    && e.length <= u16::MAX
                    && e.block == data_block
                    && (e.creation_date matches Some(d) ==> d.wf()),
                Ok(None) => parsed_entry(buf@, at as int, data_block, extra_bytes) == Ok::<Option<EntryView>, Error>(None),
                Err(e) => parsed_entry(buf@, at as int, data_block, extra_bytes) == Err::<Option<EntryView>, Error>(e),
            },
    {
        proof {
            reveal(parsed_entry);
        }
        let len = buf.len();
        if len < 2 || at > len - 2 {
            return Err(Error::Format);
        }
        let status = read_word(buf, at);
        if test_bit(status, STATUS_E_EOS) {
            return Ok(None);
        }
        let kind = if test_bit(status, STATUS_E_TENT) {
            EntryKind::Tentative
        } else if test_bit(status, STATUS_E_MPTY) {
            EntryKind::Empty
        } else if test_bit(status, STATUS_E_PERM) {
            EntryKind::Permanent
        } else {
            return Err(Error::Format);
        };
        let extra_words = (extra_bytes / 2) as usize;
        if len < 14 + 2 * extra_words || at > len - 14 - 2 * extra_words {
            return Err(Error::Format);
        }
        let words = read_words(buf, at + 2, 3);
        let name_words = [words[0], words[1], words[2]];
        assert(name_words@ =~= words@);
        let name = decode_filename(&name_words);
        let length = read_word(buf, at + 8) as usize;
        let job = buf[at + 10];
        let channel = buf[at + 11];
        let creation_date = match DirEntry::decode_date(read_word(buf, at + 12)) {
            Ok(d) => d,
            Err(e) => { return Err(e); },
        };
        let extra = read_words(buf, at + 14, extra_words);
        Ok(
            Some(
                DirEntry {
                    kind,
                    read_only: test_bit(status, STATUS_E_READ),
                    protected: test_bit(status, STATUS_E_PROT),
                    prefix_block: test_bit(status, STATUS_E_PRE),
                    name,
                    length,
                    job,
                    channel,
                    creation_date,
                    extra,
                    block: data_block,
                },
            ),
        )
    }

    /// The bytes of the entry on disk.
    pub fn repr(&self) -> (r: Result<Vec<u8>, Error>)
        requires
            self.creation_date matches Some(d) ==> d.wf(),
        ensures
            crate::block::read_view(r) == entry_bytes(self@),
    {
        proof {
            reveal(entry_bytes);
        }
        let name = match DirEntry::encode_filename(self.name.as_str()) {
            Ok(w) => w,
            Err(e) => { return Err(e); },
        };
        let date = match DirEntry::encode_date(self.creation_date) {
            Ok(w) => w,
            Err(e) => { return Err(e); },
        };
        let status = status_of(self.kind, self.read_only, self.protected, self.prefix_block);
        let mut out: Vec<u8> = Vec::new();
        push_word(&mut out, status);
        push_words(&mut out, name.as_slice());
        let ghost head = out@;
        assert(head =~= word_bytes(status) + words_bytes(filename_words(self.name@)));
        push_word(&mut out, self.length as u16);
        out.push(self.job);
        out.push(self.channel);
        let ghost middle = out@;
        assert(middle =~= head + word_bytes(self.length as u16) + seq![self.job, self.channel]);
        push_word(&mut out, date);
        push_words(&mut out, self.extra.as_slice());
        assert(out@ =~= middle + word_bytes(date) + words_bytes(self.extra@));
        Ok(out)
    }

    /// The three RADIX-50 words of a 6.3 file name.
    pub fn encode_filename(name: &str) -> (r: Result<[u16; 3], Error>)
        ensures
            match r {
                Ok(words) => valid_filename(name@) && words@ == filename_words(name@),
                Err(e) => !valid_filename(name@) && e == Error::NameInvalid,
            },
    {
        encode_filename(name)
    }

    /// The date word of an optional date.
    pub fn encode_date(date: Option<Date>) -> (r: Result<u16, Error>)
        requires
            date matches Some(d) ==> d.wf(),
        ensures
            r == encoded_date(date),
    {
        match date {
            None => Ok(0),
            Some(d) => {
                if d.year < 1972 || d.year > 2099 {
                    return Err(Error::DateOutOfRange);
                }
                let years = (d.year - 1972) as u16;
                Ok((years / 32) * 16384 + (d.month as u16) * 1024 + (d.day as u16) * 32 + years % 32)
            },
        }
    }

    /// The optional date of a date word.
    pub fn decode_date(raw: u16) -> (r: Result<Option<Date>, Error>)
        ensures
            r == decoded_date(raw),
    {
        if raw == 0 {
            return Ok(None);
        }
        let age = (raw / 16384) as i32;
        let month = ((raw / 1024) % 16) as u32;
        let day = ((raw / 32) % 32) as u32;
        let year = (raw % 32) as i32;
        match Date::from_ymd_opt(1972 + year + age * 32, month, day) {
            Some(d) => Ok(Some(d)),
            None => Err(Error::Format),
        }
    }
}

/// The entry for `blocks` free blocks from `data_block` on.
pub open spec fn empty_entry(data_block: usize, blocks: usize) -> EntryView {
    EntryView {
        kind: EntryKind::Empty,
        read_only: false,
        protected: false,
        prefix_block: false,
        name: "EMPTYF.ILE"@,
        length: blocks,
        job: 0,
        channel: 0,
        creation_date: None,
        extra: Seq::empty(),
        block: data_block,
    }
}

/// A segment of the directory: two blocks with a header of five words and
/// the entries for a run of blocks.
pub struct DirSegment {
    pub segments: u16,
    pub next_segment: u16,
    pub last_segment: u16,
    pub extra_bytes: u16,
    pub data_block: u16,
    pub entries: Vec<DirEntry>,
    /// Block at which the segment lies; not stored.
    pub block: u16,
    /// Number of the segment, from 1; not stored.
    pub segment: u16,
}

/// A segment of the directory as a mathematical value.
pub struct SegmentView {
    pub segments: u16,
    pub next_segment: u16,
    pub last_segment: u16,
    pub extra_bytes: u16,
    pub data_block: u16,
    pub entries: Seq<EntryView>,
    pub block: u16,
    pub segment: u16,
}

/// The entries as mathematical values.
pub open spec fn entry_views(entries: Seq<DirEntry>) -> Seq<EntryView> {
    Seq::new(entries.len(), |i: int| entries[i]@)
}

impl View for DirSegment {
    type V = SegmentView;

    open spec fn view(&self) -> SegmentView {
        SegmentView {
            segments: self.segments,
            next_segment: self.next_segment,
            last_segment: self.last_segment,
            extra_bytes: self.extra_bytes,
            data_block: self.data_block,
            entries: entry_views(self.entries@),
            block: self.block,
            segment: self.segment,
        }
    }
}

/// Blocks that the entries cover together.
pub open spec fn total_length(entries: Seq<EntryView>) -> int
    decreases entries.len(),
{
    if entries.len() == 0 {
        0
    } else {
        total_length(entries.drop_last()) + entries.last().length
    }
}

/// Blocks of the entries of kind `kind`, or of the other kinds if `wanted`
/// is false.
pub open spec fn kind_length(entries: Seq<EntryView>, kind: EntryKind, wanted: bool) -> int
    decreases entries.len(),
{
    if entries.len() == 0 {
        0
    } else {
        kind_length(entries.drop_last(), kind, wanted) + (if (entries.last().kind == kind) == wanted {
            entries.last().length as int
        } else {
            0
        })
    }
}

/// The segment is consistent: the first entry begins at the data block of
/// the segment, each other entry begins where the one before it ends, no
/// entry ends past block 65535, and the dates are days of the calendar.
pub open spec fn segment_wf(s: SegmentView) -> bool {
    &&& s.entries.len() > 0 ==> s.entries[0].block == s.data_block
    &&& forall|i: int| 0 <= i < s.entries.len() ==> (#[trigger] s.entries[i]).block + s.entries[i].length <= u16::MAX
    &&& forall|i: int| 0 < i < s.entries.len() ==> #[trigger] follows(s.entries, i)
    &&& forall|i: int| 0 <= i < s.entries.len() ==> ((#[trigger] s.entries[i]).creation_date matches Some(d) ==> d.wf())
}

/// Entry `i` begins where the entry before it ends.
pub open spec fn follows(entries: Seq<EntryView>, i: int) -> bool {
    entries[i].block == entries[i - 1].block + entries[i - 1].length
}

/// Where the entries before entry `k` end: at the block where entry `k`
/// begins, or, with `k` the number of entries, where the last entry ends.
pub open spec fn end_of_prefix(s: SegmentView, k: int) -> int {
    if k <= 0 {
        s.data_block as int
    } else {
        s.entries[k - 1].block + s.entries[k - 1].length
    }
}

/// In a consistent segment the lengths of the first `k` entries add up to
/// the distance from the data block of the segment to the end of entry
/// `k - 1`.
pub proof fn lemma_prefix_total(s: SegmentView, k: int)
    requires
        segment_wf(s),
        0 <= k <= s.entries.len(),
    ensures
        s.data_block + total_length(s.entries.subrange(0, k)) == end_of_prefix(s, k),
        end_of_prefix(s, k) <= u16::MAX,
        k < s.entries.len() ==> s.entries[k].block == end_of_prefix(s, k),
    decreases k,
{
    if k > 0 {
        lemma_prefix_total(s, k - 1);
        assert(s.entries.subrange(0, k).drop_last() =~= s.entries.subrange(0, k - 1));
        assert(s.entries[k - 1].block + s.entries[k - 1].length <= u16::MAX);
        if k < s.entries.len() {
            assert(follows(s.entries, k));
        }
    } else {
        assert(s.entries.subrange(0, 0) =~= Seq::<EntryView>::empty());
    }
}

/// Entries that a segment with `extra_bytes` extra bytes per entry may
/// hold: what fits in two blocks beside the header and the end mark, less
/// two that are held back.
pub open spec fn max_entries_spec(extra_bytes: u16) -> int {
    let fit = (1024 - 10 - 2) / (14 + extra_bytes);
    if fit >= 2 { fit - 2 } else { 0 }
}

/// Block at which segment `segment` lies when the first lies at
/// `seg_start_block`.
pub open spec fn segment_block_spec(seg_start_block: u16, segment: u16) -> int {
    seg_start_block + (segment - 1) * 2
}

/// The bytes of the entries one after the other, or the error of the first
/// that cannot be written.
pub open spec fn entries_bytes(entries: Seq<EntryView>) -> Result<Seq<u8>, Error>
    decreases entries.len(),
{
    if entries.len() == 0 {
        Ok(Seq::empty())
    } else {
        match entries_bytes(entries.drop_last()) {
            Err(e) => Err(e),
            Ok(head) => match entry_bytes(entries.last()) {
                Err(e) => Err(e),
                Ok(last) => Ok(head + last),
            },
        }
    }
}

/// `n` zero bytes.
pub open spec fn zeros(n: int) -> Seq<u8> {
    Seq::new(n as nat, |i: int| 0u8)
}

/// The two blocks of a segment: the header, the entries, the end mark, and
/// zeros up to 1024 bytes. A segment whose entries do not fit is refused.
pub open spec fn segment_bytes(s: SegmentView) -> Result<Seq<u8>, Error> {
    match entries_bytes(s.entries) {
        Err(e) => Err(e),
        Ok(body) => if 10 + body.len() + 2 > 1024 {
            Err(Error::NoSpace)
        } else {
            Ok(
                words_bytes(seq![s.segments, s.next_segment, s.last_segment, s.extra_bytes, s.data_block]) + body
                    + word_bytes(STATUS_E_EOS) + zeros(1024 - 12 - body.len()),
            )
        },
    }
}

/// The entries read from byte `at` of a segment up to the end mark, the
/// first of them beginning at block `block`. An entry that ends past block
/// 65535 is refused.
#[verifier::opaque]
pub open spec fn parsed_entries(buf: Seq<u8>, at: int, block: usize, extra_bytes: u16) -> Result<
    Seq<EntryView>,
    Error,
>
    decreases buf.len() - at,
{
    match parsed_entry(buf, at, block, extra_bytes) {
        Err(e) => Err(e),
        Ok(None) => Ok(Seq::empty()),
        Ok(Some(e)) => if at < 0 || at + 14 + (extra_bytes / 2) * 2 > buf.len() || block + e.length > u16::MAX {
            Err(Error::Format)
        } else {
            match parsed_entries(
                buf,
                at + 14 + (extra_bytes / 2) * 2,
                (block + e.length) as usize,
                extra_bytes,
            ) {
                Err(err) => Err(err),
                Ok(rest) => Ok(seq![e] + rest),
            }
        },
    }
}

/// The segment with number `segment` at block `my_block` that the two
/// blocks `buf` hold.
pub open spec fn parsed_segment(segment: u16, my_block: u16, buf: Seq<u8>) -> Result<SegmentView, Error> {
    if buf.len() < 10 {
        Err(Error::Format)
    } else if word_at(buf, 6) % 2 == 1 {
        Err(Error::Format)
    } else {
        match parsed_entries(buf, 10, word_at(buf, 8) as usize, word_at(buf, 6)) {
            Err(e) => Err(e),
            Ok(entries) => if entries.len() < 1 {
                Err(Error::Format)
            } else {
                Ok(
                    SegmentView {
                        segments: word_at(buf, 0),
                        next_segment: word_at(buf, 2),
                        last_segment: word_at(buf, 4),
                        extra_bytes: word_at(buf, 6),
                        data_block: word_at(buf, 8),
                        entries,
                        block: my_block,
                        segment,
                    },
                )
            },
        }
    }
}

/// One step of reading the entries.
pub proof fn lemma_parsed_entries_step(buf: Seq<u8>, at: int, block: usize, extra_bytes: u16)
    ensures
        parsed_entries(buf, at, block, extra_bytes) == (match parsed_entry(buf, at, block, extra_bytes) {
            Err(e) => Err(e),
            Ok(None) => Ok(Seq::empty()),
            Ok(Some(e)) => if at < 0 || at + 14 + (extra_bytes / 2) * 2 > buf.len() || block + e.length > u16::MAX {
                Err(Error::Format)
            } else {
                entries_then(
                    seq![e],
                    parsed_entries(buf, at + 14 + (extra_bytes / 2) * 2, (block + e.length) as usize, extra_bytes),
                )
            },
        }),
{
    reveal(parsed_entries);
}

/// The entries found so far followed by what is still to be read.
pub open spec fn entries_then(found: Seq<EntryView>, rest: Result<Seq<EntryView>, Error>) -> Result<
    Seq<EntryView>,
    Error,
> {
    match rest {
        Err(e) => Err(e),
        Ok(more) => Ok(found + more),
    }
}

pub proof fn lemma_total_length_nonneg(entries: Seq<EntryView>)
    ensures
        total_length(entries) >= 0,
    decreases entries.len(),
{
    if entries.len() > 0 {
        lemma_total_length_nonneg(entries.drop_last());
    }
}

pub proof fn lemma_total_length_concat(a: Seq<EntryView>, b: Seq<EntryView>)
    ensures
        total_length(a + b) == total_length(a) + total_length(b),
    decreases b.len(),
{
    if b.len() == 0 {
        assert(a + b =~= a);
    } else {
        lemma_total_length_concat(a, b.drop_last());
        assert((a + b).drop_last() =~= a + b.drop_last());
    }
}

impl DirSegment {
    /// Block at which segment `segment` lies when the first lies at
    /// `seg_start_block`.
    pub fn segment_block(seg_start_block: u16, segment: u16) -> (b: u16)
        requires
            segment >= 1,
            segment_block_spec(seg_start_block, segment) <= u16::MAX,
        ensures
            b == segment_block_spec(seg_start_block, segment),
    {
        seg_start_block + (segment - 1) * 2
    }

    /// A segment with one entry for the free blocks `data_block`.
    pub fn new(segment: u16, seg_start_block: u16, unused_segs: Range<u16>, data_block: Range<u16>) -> (s:
        DirSegment)
        requires
            segment >= 1,
            segment_block_spec(seg_start_block, segment) <= u16::MAX,
            data_block.start <= data_block.end,
        ensures
            s@ == new_segment(segment, seg_start_block, unused_segs, data_block),
            segment_wf(s@),
    {
        let block = DirSegment::segment_block(seg_start_block, segment);
        let mut entries: Vec<DirEntry> = Vec::new();
        entries.push(
            DirEntry::new_empty(data_block.start as usize, (data_block.end - data_block.start) as usize),
        );
        let s = DirSegment {
            segment,
            block,
            next_segment: 0,
            last_segment: unused_segs.start,
            segments: unused_segs.end,
            extra_bytes: 0,
            data_block: data_block.start,
            entries,
        };
        proof {
            let want = new_segment(segment, seg_start_block, unused_segs, data_block);
            assert(s@.entries =~= want.entries);
        }
        s
    }

    /// Reads segment `segment`, which lies at block `my_block`, from its two
    /// blocks.
    pub fn from_repr(segment: u16, my_block: u16, buf: &[u8]) -> (r: Result<DirSegment, Error>)
        ensures
            match r {
                Ok(s) => parsed_segment(segment, my_block, buf@) == Ok::<SegmentView, Error>(s@) && segment_wf(s@),
                Err(e) => parsed_segment(segment, my_block, buf@) == Err::<SegmentView, Error>(e),
            },
    {
        if buf.len() < 10 {
            return Err(Error::Format);
        }
        let segments = read_word(buf, 0);
        let next_segment = read_word(buf, 2);
        let last_segment = read_word(buf, 4);
        let extra_bytes = read_word(buf, 6);
        if extra_bytes % 2 == 1 {
            return Err(Error::Format);
        }
        let data_block = read_word(buf, 8);
        let mut entries: Vec<DirEntry> = Vec::new();
        let mut block: usize = data_block as usize;
        let mut at: usize = 10;
        let step: usize = 14 + ((extra_bytes / 2) as usize) * 2;
        let total = buf.len();
        let ghost whole = parsed_entries(buf@, 10, data_block as usize, extra_bytes);
        assert(entry_views(entries@) =~= Seq::<EntryView>::empty());
        assert(whole == entries_then(entry_views(entries@), whole)) by {
            if let Ok(more) = whole {
                assert(Seq::<EntryView>::empty() + more =~= more);
            }
        }
        loop
            invariant
                total == buf@.len(),
                total >= 10,
                extra_bytes == word_at(buf@, 6),
                extra_bytes % 2 == 0,
                data_block == word_at(buf@, 8),
                step == 14 + (extra_bytes / 2) * 2,
                10 <= at <= total,
                block == end_of_prefix(partial_segment(data_block, entry_views(entries@)), entries@.len() as int),
                block <= u16::MAX,
                segment_wf(partial_segment(data_block, entry_views(entries@))),
                whole == parsed_entries(buf@, 10, data_block as usize, extra_bytes),
                whole == entries_then(entry_views(entries@), parsed_entries(buf@, at as int, block, extra_bytes)),
            ensures
                whole == Ok::<Seq<EntryView>, Error>(entry_views(entries@)),
            decreases total - at,
        {
            proof {
                lemma_parsed_entries_step(buf@, at as int, block, extra_bytes);
            }
            let entry = match DirEntry::from_repr(block, extra_bytes, buf, at) {
                Err(e) => { return Err(e); },
                Ok(None) => {
                    proof {
                        assert(entry_views(entries@) + Seq::<EntryView>::empty() =~= entry_views(entries@));
                    }
                    break ;
                },
                Ok(Some(entry)) => entry,
            };
            if entry.length > u16::MAX as usize - block {
                return Err(Error::Format);
            }
            let ghost found = entry_views(entries@);
            let ghost ev = entry@;
            proof {
                if let Ok(more) = parsed_entries(buf@, at + step, (block + ev.length) as usize, extra_bytes) {
                    assert(found + (seq![ev] + more) =~= found.push(ev) + more);
                }
            }
            block = block + entry.length;
            at = at + step;
            entries.push(entry);
            proof {
                let now = entry_views(entries@);
                assert(now =~= found.push(ev));
                assert forall|i: int| 0 < i < now.len() implies #[trigger] follows(now, i) by {
                    if i < found.len() {
                        assert(follows(found, i));
                    }
                }
            }
        }
        if entries.len() < 1 {
            return Err(Error::Format);
        }
        let s = DirSegment {
            segment,
            block: my_block,
            segments,
            next_segment,
            last_segment,
            extra_bytes,
            data_block,
            entries,
        };
        proof {
            assert(s@.entries == partial_segment(data_block, entry_views(s.entries@)).entries);
        }
        Ok(s)
    }

    /// The two blocks of the segment.
    pub fn repr(&self) -> (r: Result<Vec<u8>, Error>)
        requires
            segment_wf(self@),
        ensures
            crate::block::read_view(r) == segment_bytes(self@),
            r matches Ok(bytes) ==> bytes@.len() == 1024,
    {
        let mut out: Vec<u8> = Vec::new();
        push_word(&mut out, self.segments);
        push_word(&mut out, self.next_segment);
        push_word(&mut out, self.last_segment);
        push_word(&mut out, self.extra_bytes);
        push_word(&mut out, self.data_block);
        let ghost header = words_bytes(
            seq![self.segments, self.next_segment, self.last_segment, self.extra_bytes, self.data_block],
        );
        proof {
            reveal_with_fuel(words_bytes, 6);
            assert(out@ =~= header);
        }
        let n = self.entries.len();
        let ghost views = entry_views(self.entries@);
        let mut i: usize = 0;
        assert(views.subrange(0, 0) =~= Seq::<EntryView>::empty());
        while i < n
            invariant
                n == self.entries@.len(),
                i <= n,
                views == entry_views(self.entries@),
                segment_wf(self@),
                header.len() == 10,
                entries_bytes(views.subrange(0, i as int)) matches Ok(body) && out@ == header + body,
            decreases n - i,
        {
            proof {
                assert(views.subrange(0, i + 1).drop_last() =~= views.subrange(0, i as int));
                assert(self@.entries[i as int] == views[i as int]);
            }
            match self.entries[i].repr() {
                Err(e) => {
                    proof {
                        lemma_entries_bytes_error(views, i + 1);
                    }
                    return Err(e);
                },
                Ok(bytes) => {
                    let mut bytes = bytes;
                    let ghost piece = bytes@;
                    out.append(&mut bytes);
                    proof {
                        let body = entries_bytes(views.subrange(0, i as int)).unwrap();
                        assert(out@ =~= header + (body + piece));
                    }
                },
            }
            i += 1;
        }
        proof {
            assert(views.subrange(0, n as int) =~= views);
        }
        let ghost body = entries_bytes(views).unwrap();
        if out.len() > 1022 {
            return Err(Error::NoSpace);
        }
        push_word(&mut out, STATUS_E_EOS);
        let pad = 1024 - out.len();
        push_zeros(&mut out, pad);
        proof {
            assert(out@ =~= header + body + word_bytes(STATUS_E_EOS) + zeros(1024 - 12 - body.len()));
        }
        Ok(out)
    }

    /// Entries that the segment may hold.
    pub fn max_entries(&self) -> (n: usize)
        ensures
            n == max_entries_spec(self.extra_bytes),
    {
        let fit = (BLOCK_SIZE * 2 - 10 - 2) / (14 + self.extra_bytes as usize);
        if fit >= 2 { fit - 2 } else { 0 }
    }

    /// The blocks that the entries of the segment cover.
    pub fn block_range(&self) -> (r: Range<u16>)
        requires
            segment_wf(self@),
        ensures
            r.start == self.data_block,
            r.end == self.data_block + total_length(self@.entries),
    {
        let n = self.entries.len();
        let ghost views = entry_views(self.entries@);
        let mut count: usize = 0;
        let mut i: usize = 0;
        proof {
            lemma_prefix_total(self@, 0);
        }
        while i < n
            invariant
                n == self.entries@.len(),
                i <= n,
                views == entry_views(self.entries@),
                segment_wf(self@),
                count == total_length(views.subrange(0, i as int)),
                self.data_block + count <= u16::MAX,
            decreases n - i,
        {
            proof {
                lemma_prefix_total(self@, i as int);
                lemma_prefix_total(self@, i + 1);
                assert(views.subrange(0, i + 1).drop_last() =~= views.subrange(0, i as int));
                assert(views[i as int] == self.entries@[i as int]@);
            }
            count = count + self.entries[i].length;
            i += 1;
        }
        proof {
            assert(views.subrange(0, n as int) =~= views);
        }
        Range { start: self.data_block, end: self.data_block + count as u16 }
    }
}

pub proof fn lemma_total_length_prefix(entries: Seq<EntryView>, k: int)
    requires
        0 <= k <= entries.len(),
    ensures
        0 <= total_length(entries.subrange(0, k)) <= total_length(entries),
    decreases entries.len() - k,
{
    lemma_total_length_nonneg(entries.subrange(0, k));
    if k < entries.len() {
        lemma_total_length_prefix(entries, k + 1);
        assert(entries.subrange(0, k + 1).drop_last() =~= entries.subrange(0, k));
    } else {
        assert(entries.subrange(0, k) =~= entries);
    }
}

pub proof fn lemma_entries_bytes_error(entries: Seq<EntryView>, k: int)
    requires
        0 <= k <= entries.len(),
        entries_bytes(entries.subrange(0, k)) is Err,
    ensures
        entries_bytes(entries) == entries_bytes(entries.subrange(0, k)),
    decreases entries.len() - k,
{
    if k < entries.len() {
        assert(entries.subrange(0, k + 1).drop_last() =~= entries.subrange(0, k));
        lemma_entries_bytes_error(entries, k + 1);
    } else {
        assert(entries.subrange(0, k) =~= entries);
    }
}

/// A segment with the given data block and entries, for speaking of the
/// entries alone.
pub open spec fn partial_segment(data_block: u16, entries: Seq<EntryView>) -> SegmentView {
    SegmentView {
        segments: 0,
        next_segment: 0,
        last_segment: 0,
        extra_bytes: 0,
        data_block,
        entries,
        block: 0,
        segment: 0,
    }
}

/// The segment that `DirSegment::new` makes.
pub open spec fn new_segment(segment: u16, seg_start_block: u16, unused_segs: Range<u16>, data_block: Range<u16>) -> SegmentView {
    SegmentView {
        segments: unused_segs.end,
        next_segment: 0,
        last_segment: unused_segs.start,
        extra_bytes: 0,
        data_block: data_block.start,
        entries: seq![empty_entry(data_block.start as usize, (data_block.end - data_block.start) as usize)],
        block: segment_block_spec(seg_start_block, segment) as u16,
        segment,
    }
}

} // verus!
