use vstd::prelude::*;

use crate::block::read_view;
use crate::bytes::{push_word, push_zeros, read_word, word_at, word_bytes};
use crate::date::{days_in_year, year_in_calendar, Date};
use crate::error::Error;
use crate::fs::rt11::{push_words, read_words, words_at, words_bytes, zeros};
use crate::name::{decode_filename, decoded_filename, encode_filename, filename_words, valid_filename};

pub mod volume;
pub use self::volume::XxdpFs;
pub mod laws;
pub mod consistency;

verus! {

/// Bytes of a block that follow the word that points to the next block.
pub const USABLE_BLOCK_SIZE: usize = 510;

/// Words of the bitmap that a bitmap block holds.
pub const BITMAP_WORDS_PER_MAP_BLOCK: usize = 60;

/// Entries that a block of the user file directory holds.
pub const ENTRIES_PER_UFD_BLOCK: usize = 28;

/// The least multiple of `step` that is not below `total`.
pub open spec fn round_up_spec(total: int, step: int) -> int {
    (total + step - 1) / step * step
}

/// The least multiple of `step` that is not below `total`.
pub fn round_up(total: usize, step: usize) -> (n: usize)
    requires
        step > 0,
        total + step - 1 <= usize::MAX,
    ensures
        n == round_up_spec(total as int, step as int),
{
    let count = (total + (step - 1)) / step;
    assert(count * step <= total + step - 1) by (nonlinear_arith)
        requires count == (total + step - 1) / (step as int), step > 0;
    count * step
}

/// An entry of the user file directory.
pub struct DirEntry {
    pub name: Option<String>,
    pub date: Option<Date>,
    pub first_block: usize,
    pub length: usize,
    pub last_block: usize,
}

/// An entry of the user file directory as a mathematical value.
pub struct EntryView {
    pub name: Option<Seq<char>>,
    pub date: Option<Date>,
    pub first_block: usize,
    pub length: usize,
    pub last_block: usize,
}

impl View for DirEntry {
    type V = EntryView;

    open spec fn view(&self) -> EntryView {
        EntryView {
            name: match self.name {
                Some(n) => Some(n@),
                None => None,
            },
            date: self.date,
            first_block: self.first_block,
            length: self.length,
            last_block: self.last_block,
        }
    }
}

/// The entry of a slot that holds no file.
pub open spec fn free_entry() -> EntryView {
    EntryView { name: None, date: None, first_block: 0, length: 0, last_block: 0 }
}

/// The date word of a date: a thousand times the year since 1970 plus the
/// number of the day in the year.
pub open spec fn date_word(date: Date) -> u16 {
    ((date.year - 1970) * 1000 + date.ordinal_spec()) as u16
}

/// The date can be packed: its year is from 1970 to 2035.
pub open spec fn date_packable(date: Date) -> bool {
    1970 <= date.year <= 2035
}

/// The word of an optional date; no date is 0.
pub open spec fn encoded_date(date: Option<Date>) -> Result<u16, Error> {
    match date {
        None => Ok(0u16),
        Some(d) => if date_packable(d) { Ok(date_word(d)) } else { Err(Error::DateOutOfRange) },
    }
}

/// The date word names a day: day `raw % 1000` of year `1970 + raw / 1000`.
pub open spec fn word_names_day(raw: u16) -> bool {
    1 <= raw % 1000 <= days_in_year(1970 + raw / 1000)
}

/// The optional date of a date word: 0 is no date, a word that names no day
/// is refused, and any other stands for the day with that number in that
/// year.
pub open spec fn date_decoded(raw: u16, r: Result<Option<Date>, Error>) -> bool {
    if raw == 0 {
        r == Ok::<Option<Date>, Error>(None)
    } else if !word_names_day(raw) {
        r == Err::<Option<Date>, Error>(Error::Format)
    } else {
        r matches Ok(Some(d)) && d.wf() && d.year == 1970 + raw / 1000 && d.ordinal_spec() == raw % 1000
    }
}

/// The optional date of a date word.
pub open spec fn decoded_date(raw: u16) -> Result<Option<Date>, Error> {
    choose|r: Result<Option<Date>, Error>| date_decoded(raw, r)
}

/// A date word stands for one date only.
pub proof fn lemma_date_decoded_unique(raw: u16, a: Result<Option<Date>, Error>, b: Result<Option<Date>, Error>)
    requires
        date_decoded(raw, a),
        date_decoded(raw, b),
    ensures
        a == b,
{
    if raw != 0 && word_names_day(raw) {
        crate::date::lemma_ordinal_injective(a.unwrap().unwrap(), b.unwrap().unwrap());
    }
}

/// Packing a date from 1970 to 2035 and unpacking the word gives the date
/// back, and the word of a date is never 0, the word of no date.
pub proof fn lemma_date_roundtrip(date: Date)
    requires
        date.wf(),
        date_packable(date),
    ensures
        date_word(date) != 0,
        decoded_date(date_word(date)) == Ok::<Option<Date>, Error>(Some(date)),
        decoded_date(0) == Ok::<Option<Date>, Error>(None),
        encoded_date(None) == Ok::<u16, Error>(0),
{
    crate::date::lemma_ordinal_range(date);
    let w = date_word(date);
    let years = date.year - 1970;
    assert(w == years * 1000 + date.ordinal_spec());
    assert(w / 1000 == years && w % 1000 == date.ordinal_spec());
    let good = Ok::<Option<Date>, Error>(Some(date));
    assert(date_decoded(w, good));
    lemma_date_decoded_unique(w, good, decoded_date(w));
    assert(date_decoded(0, Ok::<Option<Date>, Error>(None)));
    lemma_date_decoded_unique(0, Ok::<Option<Date>, Error>(None), decoded_date(0));
}

/// The three name words of a slot: those of the name, or three zeros for a
/// slot that holds no file. The name of no characters stands for a name of
/// spaces.
pub open spec fn name_words(name: Option<Seq<char>>) -> Result<Seq<u16>, Error> {
    match name {
        None => Ok(seq![0u16, 0u16, 0u16]),
        Some(n) => {
            let text = if n.len() == 0 { "      .   "@ } else { n };
            if valid_filename(text) { Ok(filename_words(text)) } else { Err(Error::NameInvalid) }
        },
    }
}

/// The eighteen bytes of an entry on disk: three name words, the date, a
/// word that is not used, the first block, the length, the last block, and
/// a word that is not used.
#[verifier::opaque]
pub open spec fn entry_bytes(e: EntryView) -> Result<Seq<u8>, Error> {
    match name_words(e.name) {
        Err(err) => Err(err),
        Ok(words) => match encoded_date(e.date) {
            Err(err) => Err(err),
            Ok(date) => Ok(
                words_bytes(words) + word_bytes(date) + word_bytes(0) + word_bytes(e.first_block as u16)
                    + word_bytes(e.length as u16) + word_bytes(e.last_block as u16) + word_bytes(0),
            ),
        },
    }
}

/// What is read at byte `at` of a directory block: nothing where no whole
/// entry is left, else the entry, or the reason that it cannot be read.
#[verifier::opaque]
pub open spec fn parsed_entry(buf: Seq<u8>, at: int) -> Result<Option<EntryView>, Error> {
    if at < 0 || at + 18 > buf.len() {
        Ok(None)
    } else {
        match decoded_date(word_at(buf, at + 6)) {
            Err(e) => Err(e),
            Ok(date) => Ok(
                Some(
                    EntryView {
                        name: if word_at(buf, at) == 0 && word_at(buf, at + 2) == 0 && word_at(buf, at + 4) == 0 {
                            None
                        } else {
                            Some(decoded_filename(words_at(buf, at, 3)))
                        },
                        date,
                        first_block: word_at(buf, at + 10) as usize,
                        length: word_at(buf, at + 12) as usize,
                        last_block: word_at(buf, at + 14) as usize,
                    },
                ),
            ),
        }
    }
}

impl DirEntry {
    /// The entry of a slot that holds no file.
    pub fn free() -> (e: DirEntry)
        ensures
            e@ == free_entry(),
    {
        DirEntry { name: None, date: None, first_block: 0, length: 0, last_block: 0 }
    }

    /// A copy of the entry.
    pub fn duplicate(&self) -> (e: DirEntry)
        ensures
            e@ == self@,
    {
        DirEntry {
            name: match &self.name {
                Some(n) => Some(n.clone()),
                None => None,
            },
            date: self.date,
            first_block: self.first_block,
            length: self.length,
            last_block: self.last_block,
        }
    }

    /// Reads the entry at byte `at` of a directory block; `None` where no
    /// whole entry is left in the block.
    pub fn from_repr(buf: &[u8], at: usize) -> (r: Result<Option<DirEntry>, Error>)
        ensures
            match r {
                Ok(Some(e)) => parsed_entry(buf@, at as int) == Ok::<Option<EntryView>, Error>(Some(e@)) && at + 18
                    <= buf@.len() && (e.date matches Some(d) ==> d.wf()),
                Ok(None) => parsed_entry(buf@, at as int) == Ok::<Option<EntryView>, Error>(None),
                Err(e) => parsed_entry(buf@, at as int) == Err::<Option<EntryView>, Error>(e),
            },
    {
        proof {
            reveal(parsed_entry);
        }
        let len = buf.len();
        if len < 18 || at > len - 18 {
            return Ok(None);
        }
        let words = read_words(buf, at, 3);
        let date = match DirEntry::decode_date(read_word(buf, at + 6)) {
            Ok(d) => d,
            Err(e) => { return Err(e); },
        };
        let name = if words[0] == 0 && words[1] == 0 && words[2] == 0 {
            None
        } else {
            let name_words = [words[0], words[1], words[2]];
            assert(name_words@ =~= words@);
            Some(decode_filename(&name_words))
        };
        Ok(
            Some(
                DirEntry {
                    name,
                    date,
                    first_block: read_word(buf, at + 10) as usize,
                    length: read_word(buf, at + 12) as usize,
                    last_block: read_word(buf, at + 14) as usize,
                },
            ),
        )
    }

    /// The eighteen bytes of the entry on disk.
    pub fn repr(&self) -> (r: Result<Vec<u8>, Error>)
        requires
            self.date matches Some(d) ==> d.wf(),
        ensures
            read_view(r) == entry_bytes(self@),
            r matches Ok(bytes) ==> bytes@.len() == 18,
    {
        proof {
            reveal(entry_bytes);
        }
        let words = match &self.name {
            Some(name) => match DirEntry::encode_filename(name.as_str()) {
                Ok(w) => w,
                Err(e) => { return Err(e); },
            },
            None => [0u16, 0u16, 0u16],
        };
        let date = match DirEntry::encode_date(self.date) {
            Ok(w) => w,
            Err(e) => { return Err(e); },
        };
        let mut out: Vec<u8> = Vec::new();
        push_words(&mut out, words.as_slice());
        proof {
            reveal_with_fuel(words_bytes, 4);
            assert(words@.len() == 3);
            assert(out@.len() == 6);
            assert(words@ =~= name_words(self@.name).unwrap());
        }
        let ghost head = out@;
        push_word(&mut out, date);
        push_word(&mut out, 0);
        push_word(&mut out, self.first_block as u16);
        push_word(&mut out, self.length as u16);
        push_word(&mut out, self.last_block as u16);
        push_word(&mut out, 0);
        assert(out@ =~= head + word_bytes(date) + word_bytes(0) + word_bytes(self.first_block as u16) + word_bytes(
            self.length as u16,
        ) + word_bytes(self.last_block as u16) + word_bytes(0));
        Ok(out)
    }

    /// The date word of an optional date.
    pub fn encode_date(date: Option<Date>) -> (r: Result<u16, Error>)
        requires
            date matches Some(d) ==> d.wf(),
        ensures
            r == encoded_date(date),
    {
        match date {
            None => Ok(0),
            Some(d) => {
                if d.year < 1970 || d.year > 2035 {
                    return Err(Error::DateOutOfRange);
                }
                let years = (d.year - 1970) as u32;
                let ordinal = d.ordinal();
                Ok((years * 1000 + ordinal) as u16)
            },
        }
    }

    /// The optional date of a date word.
    pub fn decode_date(raw: u16) -> (r: Result<Option<Date>, Error>)
        ensures
            r == decoded_date(raw),
            date_decoded(raw, r),
    {
        let year: i32 = 1970 + (raw / 1000) as i32;
        let ordinal: u32 = (raw % 1000) as u32;
        let r = if raw == 0 {
            Ok(None)
        } else {
            match Date::from_yo_opt(year, ordinal) {
                Some(d) => Ok(Some(d)),
                None => Err(Error::Format),
            }
        };
        proof {
            assert(year == 1970 + raw / 1000);
            assert(ordinal == raw % 1000);
            assert(year_in_calendar(year as int));
            if raw != 0 {
                if word_names_day(raw) {
                    assert(r is Ok);
                } else {
                    assert(r is Err);
                }
            }
            assert(date_decoded(raw, r));
            lemma_date_decoded_unique(raw, r, decoded_date(raw));
        }
        r
    }

    /// The three RADIX-50 words of a 6.3 file name; the name of no
    /// characters stands for a name of spaces.
    pub fn encode_filename(name: &str) -> (r: Result<[u16; 3], Error>)
        ensures
            match r {
                Ok(words) => name_words(Some(name@)) == Ok::<Seq<u16>, Error>(words@),
                Err(e) => name_words(Some(name@)) == Err::<Seq<u16>, Error>(e),
            },
    {
        if name.unicode_len() == 0 {
            encode_filename("      .   ")
        } else {
            encode_filename(name)
        }
    }
}

/// The master file directory, in one of its two forms.
pub enum Mfd {
    VariantOne(MfdVariantOne),
    VariantTwo(MfdVariantTwo),
}

/// The master file directory in the form with a list of bitmap blocks.
pub struct MfdVariantOne {
    pub mfd2_block: u16,
    pub interleave_factor: u16,
    pub bitmap_block: u16,
    pub bitmap_pointer: Vec<u16>,
    pub ufd_block: u16,
}

/// The master file directory in the form with block counts.
#[derive(Clone, Copy, Debug, PartialEq, Eq, Structural)]
pub struct MfdVariantTwo {
    pub ufd_block: u16,
    pub ufd_block_count: u16,
    pub bitmap_block: u16,
    pub bitmap_block_count: u16,
    pub other_mfd_block: u16,
    pub support_blocks: u16,
    pub preallocated_blocks: u16,
    pub interleave_factor: u16,
    pub monitor_core_image_block: u16,
    pub bad_sector_file_track: u8,
    pub bad_sector_file_sector: u8,
    pub bad_sector_file_cylinder: u16,
}

/// The first form as a mathematical value.
pub struct MfdOneView {
    pub mfd2_block: u16,
    pub interleave_factor: u16,
    pub bitmap_block: u16,
    pub bitmap_pointer: Seq<u16>,
    pub ufd_block: u16,
}

/// The master file directory as a mathematical value.
pub enum MfdView {
    VariantOne(MfdOneView),
    VariantTwo(MfdVariantTwo),
}

impl View for MfdVariantOne {
    type V = MfdOneView;

    open spec fn view(&self) -> MfdOneView {
        MfdOneView {
            mfd2_block: self.mfd2_block,
            interleave_factor: self.interleave_factor,
            bitmap_block: self.bitmap_block,
            bitmap_pointer: self.bitmap_pointer@,
            ufd_block: self.ufd_block,
        }
    }
}

impl View for Mfd {
    type V = MfdView;

    open spec fn view(&self) -> MfdView {
        match self {
            Mfd::VariantOne(v) => MfdView::VariantOne(v@),
            Mfd::VariantTwo(v) => MfdView::VariantTwo(*v),
        }
    }
}

/// The most bitmap blocks that the first block of the first form can list.
pub open spec fn pointer_limit() -> int {
    252
}

/// The two blocks of the first form: the first holds the block of the
/// second, the interleave, the first bitmap block and the list of the
/// bitmap blocks; the second holds a zero link, the code of the user, the
/// first block of the user file directory, the words in a directory entry,
/// and a zero.
pub open spec fn mfd_one_bytes(m: MfdOneView) -> (Seq<u8>, Seq<u8>) {
    (
        words_bytes(seq![m.mfd2_block, m.interleave_factor, m.bitmap_block]) + words_bytes(m.bitmap_pointer) + zeros(
            512 - 6 - 2 * m.bitmap_pointer.len(),
        ),
        words_bytes(seq![0u16, 0o401u16, m.ufd_block, 9u16, 0u16]) + zeros(502),
    )
}

/// The words of the second form, without what differs between its two
/// blocks: word 5, the block of the other one.
pub open spec fn mfd_two_words(m: MfdVariantTwo, other: u16) -> Seq<u16> {
    seq![
        0u16,
        m.ufd_block,
        m.ufd_block_count,
        m.bitmap_block,
        m.bitmap_block_count,
        other,
        0u16,
        m.support_blocks,
        m.preallocated_blocks,
        m.interleave_factor,
        0u16,
        m.monitor_core_image_block,
        0u16,
    ]
}

/// One block of the second form, with `other` for the block of the other
/// one: thirteen words, then twice the place of the bad sector file.
pub open spec fn mfd_two_block(m: MfdVariantTwo, other: u16) -> Seq<u8> {
    words_bytes(mfd_two_words(m, other)) + seq![m.bad_sector_file_track, m.bad_sector_file_sector] + word_bytes(
        m.bad_sector_file_cylinder,
    ) + seq![m.bad_sector_file_track, m.bad_sector_file_sector] + word_bytes(m.bad_sector_file_cylinder) + zeros(
        512 - 34,
    )
}

/// The two blocks of the second form; the second names block 1 as the
/// other one.
pub open spec fn mfd_two_bytes(m: MfdVariantTwo) -> (Seq<u8>, Seq<u8>) {
    (mfd_two_block(m, m.other_mfd_block), mfd_two_block(m, 1))
}

/// The two blocks of the master file directory.
pub open spec fn mfd_bytes(m: MfdView) -> (Seq<u8>, Seq<u8>) {
    match m {
        MfdView::VariantOne(v) => mfd_one_bytes(v),
        MfdView::VariantTwo(v) => mfd_two_bytes(v),
    }
}

/// The words of `buf` from byte `at` up to the first that is zero; a list
/// that runs to the end of `buf` is refused.
pub open spec fn pointer_list(buf: Seq<u8>, at: int) -> Result<Seq<u16>, Error>
    decreases buf.len() - at,
{
    if at < 0 || at + 2 > buf.len() {
        Err(Error::Format)
    } else if word_at(buf, at) == 0 {
        Ok(Seq::empty())
    } else {
        match pointer_list(buf, at + 2) {
            Err(e) => Err(e),
            Ok(rest) => Ok(seq![word_at(buf, at)] + rest),
        }
    }
}

/// The first form that two blocks hold. A list of more bitmap blocks than
/// a block of 512 bytes has room for is refused.
pub open spec fn parsed_mfd_one(first: Seq<u8>, second: Seq<u8>) -> Result<MfdOneView, Error> {
    if first.len() < 6 {
        Err(Error::Format)
    } else {
        match pointer_list(first, 6) {
            Err(e) => Err(e),
            Ok(list) => if list.len() > pointer_limit() || second.len() < 6 {
                Err(Error::Format)
            } else {
                Ok(
                    MfdOneView {
                        mfd2_block: word_at(first, 0),
                        interleave_factor: word_at(first, 2),
                        bitmap_block: word_at(first, 4),
                        bitmap_pointer: list,
                        ufd_block: word_at(second, 4),
                    },
                )
            },
        }
    }
}

/// The second form that a block holds.
pub open spec fn parsed_mfd_two(first: Seq<u8>) -> Result<MfdVariantTwo, Error> {
    if first.len() < 30 {
        Err(Error::Format)
    } else {
        Ok(
            MfdVariantTwo {
                ufd_block: word_at(first, 2),
                ufd_block_count: word_at(first, 4),
                bitmap_block: word_at(first, 6),
                bitmap_block_count: word_at(first, 8),
                other_mfd_block: word_at(first, 10),
                support_blocks: word_at(first, 14),
                preallocated_blocks: word_at(first, 16),
                interleave_factor: word_at(first, 18),
                monitor_core_image_block: word_at(first, 22),
                bad_sector_file_track: first[26],
                bad_sector_file_sector: first[27],
                bad_sector_file_cylinder: word_at(first, 28),
            },
        )
    }
}

impl Mfd {
    /// The form can be written: the list of bitmap blocks fits in a block.
    pub open spec fn wf(&self) -> bool {
        match self {
            Mfd::VariantOne(v) => v.wf(),
            Mfd::VariantTwo(v) => true,
        }
    }

    /// The two blocks of the master file directory.
    pub fn repr(&self) -> (r: (Vec<u8>, Vec<u8>))
        requires
            self.wf(),
        ensures
            (r.0@, r.1@) == mfd_bytes(self@),
            r.0@.len() == 512,
            r.1@.len() == 512,
    {
        match self {
            Mfd::VariantOne(v1) => v1.repr(),
            Mfd::VariantTwo(v2) => v2.repr(),
        }
    }

    /// First block of the user file directory.
    pub fn ufd_block(&self) -> (b: u16)
        ensures
            b == mfd_ufd_block(self@),
    {
        match self {
            Mfd::VariantOne(v1) => v1.ufd_block,
            Mfd::VariantTwo(v2) => v2.ufd_block,
        }
    }

    /// First block of the bitmap.
    pub fn bitmap_block(&self) -> (b: u16)
        ensures
            b == mfd_bitmap_block(self@),
    {
        match self {
            Mfd::VariantOne(v1) => v1.bitmap_block,
            Mfd::VariantTwo(v2) => v2.bitmap_block,
        }
    }
}

/// First block of the user file directory.
pub open spec fn mfd_ufd_block(m: MfdView) -> u16 {
    match m {
        MfdView::VariantOne(v) => v.ufd_block,
        MfdView::VariantTwo(v) => v.ufd_block,
    }
}

/// First block of the bitmap.
pub open spec fn mfd_bitmap_block(m: MfdView) -> u16 {
    match m {
        MfdView::VariantOne(v) => v.bitmap_block,
        MfdView::VariantTwo(v) => v.bitmap_block,
    }
}

pub proof fn lemma_words_bytes_len(words: Seq<u16>)
    ensures
        words_bytes(words).len() == 2 * words.len(),
    decreases words.len(),
{
    if words.len() > 0 {
        lemma_words_bytes_len(words.drop_last());
    }
}

impl MfdVariantOne {
    /// The list of bitmap blocks fits in a block.
    pub open spec fn wf(&self) -> bool {
        self.bitmap_pointer@.len() <= pointer_limit()
    }

    /// Reads the first form from its two blocks.
    pub fn from_repr(_my_block: usize, first: &[u8], second: &[u8]) -> (r: Result<MfdVariantOne, Error>)
        ensures
            match r {
                Ok(m) => parsed_mfd_one(first@, second@) == Ok::<MfdOneView, Error>(m@) && m.wf(),
                Err(e) => parsed_mfd_one(first@, second@) == Err::<MfdOneView, Error>(e),
            },
    {
        let total = first.len();
        if total < 6 {
            return Err(Error::Format);
        }
        let mut list: Vec<u16> = Vec::new();
        let mut at: usize = 6;
        let ghost whole = pointer_list(first@, 6);
        proof {
            if let Ok(more) = whole {
                assert(list@ + more =~= more);
            }
        }
        loop
            invariant_except_break
                whole == (match pointer_list(first@, at as int) {
                    Err(e) => Err(e),
                    Ok(more) => Ok(list@ + more),
                }),
            invariant
                total == first@.len(),
                6 <= at <= total + 1,
                whole == pointer_list(first@, 6),
                list@.len() * 2 + 6 == at,
            ensures
                whole == Ok::<Seq<u16>, Error>(list@),
            decreases total + 2 - at,
        {
            if total < 2 || at > total - 2 {
                return Err(Error::Format);
            }
            let word = read_word(first, at);
            if word == 0 {
                proof {
                    assert(list@ + Seq::<u16>::empty() =~= list@);
                }
                break ;
            }
            proof {
                if let Ok(more) = pointer_list(first@, at + 2) {
                    assert(list@ + (seq![word] + more) =~= list@.push(word) + more);
                }
            }
            list.push(word);
            at = at + 2;
        }
        if list.len() > 252 || second.len() < 6 {
            return Err(Error::Format);
        }
        Ok(
            MfdVariantOne {
                mfd2_block: read_word(first, 0),
                interleave_factor: read_word(first, 2),
                bitmap_block: read_word(first, 4),
                bitmap_pointer: list,
                ufd_block: read_word(second, 4),
            },
        )
    }

    /// The two blocks of the first form.
    pub fn repr(&self) -> (r: (Vec<u8>, Vec<u8>))
        requires
            self.wf(),
        ensures
            (r.0@, r.1@) == mfd_one_bytes(self@),
            r.0@.len() == 512,
            r.1@.len() == 512,
    {
        let mut repr1: Vec<u8> = Vec::new();
        let mut repr2: Vec<u8> = Vec::new();
        push_word(&mut repr1, self.mfd2_block);
        push_word(&mut repr1, self.interleave_factor);
        push_word(&mut repr1, self.bitmap_block);
        proof {
            reveal_with_fuel(words_bytes, 6);
            assert(repr1@ =~= words_bytes(seq![self.mfd2_block, self.interleave_factor, self.bitmap_block]));
            lemma_words_bytes_len(self.bitmap_pointer@);
        }
        push_words(&mut repr1, self.bitmap_pointer.as_slice());
        let pad = 512 - repr1.len();
        push_zeros(&mut repr1, pad);
        push_word(&mut repr2, 0);
        push_word(&mut repr2, 0o401);
        push_word(&mut repr2, self.ufd_block);
        push_word(&mut repr2, 9);
        push_word(&mut repr2, 0);
        proof {
            assert(repr2@ =~= words_bytes(seq![0u16, 0o401u16, self.ufd_block, 9u16, 0u16]));
        }
        push_zeros(&mut repr2, 502);
        (repr1, repr2)
    }
}

impl MfdVariantTwo {
    /// Reads the second form from its first block.
    pub fn from_repr(_my_block: u16, first: &[u8], _second: &[u8]) -> (r: Result<MfdVariantTwo, Error>)
        ensures
            r == parsed_mfd_two(first@),
    {
        if first.len() < 30 {
            return Err(Error::Format);
        }
        Ok(
            MfdVariantTwo {
                ufd_block: read_word(first, 2),
                ufd_block_count: read_word(first, 4),
                bitmap_block: read_word(first, 6),
                bitmap_block_count: read_word(first, 8),
                other_mfd_block: read_word(first, 10),
                support_blocks: read_word(first, 14),
                preallocated_blocks: read_word(first, 16),
                interleave_factor: read_word(first, 18),
                monitor_core_image_block: read_word(first, 22),
                bad_sector_file_track: first[26],
                bad_sector_file_sector: first[27],
                bad_sector_file_cylinder: read_word(first, 28),
            },
        )
    }

    /// One block of the second form, with `other` for the block of the
    /// other one.
    fn block(&self, other: u16) -> (out: Vec<u8>)
        ensures
            out@ == mfd_two_block(*self, other),
            out@.len() == 512,
    {
        let mut out: Vec<u8> = Vec::new();
        push_word(&mut out, 0);
        push_word(&mut out, self.ufd_block);
        push_word(&mut out, self.ufd_block_count);
        push_word(&mut out, self.bitmap_block);
        push_word(&mut out, self.bitmap_block_count);
        push_word(&mut out, other);
        push_word(&mut out, 0);
        let ghost part = out@;
        proof {
            reveal_with_fuel(words_bytes, 8);
            assert(part =~= words_bytes(
                seq![0u16, self.ufd_block, self.ufd_block_count, self.bitmap_block, self.bitmap_block_count, other, 0u16],
            ));
        }
        push_word(&mut out, self.support_blocks);
        push_word(&mut out, self.preallocated_blocks);
        push_word(&mut out, self.interleave_factor);
        push_word(&mut out, 0);
        push_word(&mut out, self.monitor_core_image_block);
        push_word(&mut out, 0);
        proof {
            let tail = seq![
                self.support_blocks,
                self.preallocated_blocks,
                self.interleave_factor,
                0u16,
                self.monitor_core_image_block,
                0u16,
            ];
            assert(out@ =~= part + words_bytes(tail));
            let head = seq![0u16, self.ufd_block, self.ufd_block_count, self.bitmap_block, self.bitmap_block_count, other, 0u16];
            lemma_words_bytes_concat(head, tail);
            assert(head + tail =~= mfd_two_words(*self, other));
            lemma_words_bytes_len(mfd_two_words(*self, other));
        }
        out.push(self.bad_sector_file_track);
        out.push(self.bad_sector_file_sector);
        push_word(&mut out, self.bad_sector_file_cylinder);
        out.push(self.bad_sector_file_track);
        out.push(self.bad_sector_file_sector);
        push_word(&mut out, self.bad_sector_file_cylinder);
        push_zeros(&mut out, 512 - 34);
        proof {
            assert(out@ =~= mfd_two_block(*self, other));
        }
        out
    }

    /// The two blocks of the second form.
    pub fn repr(&self) -> (r: (Vec<u8>, Vec<u8>))
        ensures
            (r.0@, r.1@) == mfd_two_bytes(*self),
            r.0@.len() == 512,
            r.1@.len() == 512,
    {
        (self.block(self.other_mfd_block), self.block(1))
    }
}

pub proof fn lemma_words_bytes_concat(a: Seq<u16>, b: Seq<u16>)
    ensures
        words_bytes(a + b) == words_bytes(a) + words_bytes(b),
    decreases b.len(),
{
    if b.len() == 0 {
        assert(a + b =~= a);
        assert(words_bytes(a) + words_bytes(b) =~= words_bytes(a));
    } else {
        lemma_words_bytes_concat(a, b.drop_last());
        assert((a + b).drop_last() =~= a + b.drop_last());
        assert(words_bytes(a) + (words_bytes(b.drop_last()) + word_bytes(b.last())) =~= (words_bytes(a) + words_bytes(
            b.drop_last(),
        )) + word_bytes(b.last()));
    }
}

/// A block of the bitmap.
pub struct BitmapBlock {
    pub map_number: u16,
    pub first_bitmap: u16,
    pub entries: Vec<u16>,
}

/// The 510 bytes of a bitmap block after its link: the number of the map,
/// the words in a map, the first bitmap block, the words of the map, and
/// zeros.
pub open spec fn bitmap_block_bytes(map_number: u16, first_bitmap: u16, entries: Seq<u16>) -> Seq<u8> {
    words_bytes(seq![map_number, 60u16, first_bitmap]) + words_bytes(entries) + zeros(510 - 6 - 2 * entries.len())
}

/// The words of the map in the bitmap block `buf`, which must say that a
/// map has 60 words.
pub open spec fn parsed_bitmap_block(buf: Seq<u8>) -> Result<Seq<u16>, Error> {
    if buf.len() < 6 {
        Err(Error::Format)
    } else if word_at(buf, 4) != 60 {
        Err(Error::Format)
    } else if buf.len() < 8 + 120 {
        Err(Error::Format)
    } else {
        Ok(words_at(buf, 8, 60))
    }
}

impl BitmapBlock {
    /// Reads a bitmap block, the link at its begin included in `buf`.
    pub fn from_repr(buf: &[u8]) -> (r: Result<BitmapBlock, Error>)
        ensures
            match r {
                Ok(b) => parsed_bitmap_block(buf@) == Ok::<Seq<u16>, Error>(b.entries@) && b.map_number == word_at(
                    buf@,
                    2,
                ) && b.first_bitmap == word_at(buf@, 6),
                Err(e) => parsed_bitmap_block(buf@) == Err::<Seq<u16>, Error>(e),
            },
    {
        if buf.len() < 6 {
            return Err(Error::Format);
        }
        let map_number = read_word(buf, 2);
        let map_length = read_word(buf, 4);
        if map_length != 60 {
            return Err(Error::Format);
        }
        if buf.len() < 128 {
            return Err(Error::Format);
        }
        Ok(BitmapBlock { map_number, first_bitmap: read_word(buf, 6), entries: read_words(buf, 8, 60) })
    }

    /// The 510 bytes of the block after its link.
    pub fn repr(&self) -> (out: Vec<u8>)
        requires
            self.entries@.len() <= 60,
        ensures
            out@ == bitmap_block_bytes(self.map_number, self.first_bitmap, self.entries@),
            out@.len() == 510,
    {
        let mut out: Vec<u8> = Vec::new();
        push_word(&mut out, self.map_number);
        push_word(&mut out, 60);
        push_word(&mut out, self.first_bitmap);
        proof {
            reveal_with_fuel(words_bytes, 4);
            assert(out@ =~= words_bytes(seq![self.map_number, 60u16, self.first_bitmap]));
            lemma_words_bytes_len(self.entries@);
        }
        push_words(&mut out, self.entries.as_slice());
        let pad = 510 - out.len();
        push_zeros(&mut out, pad);
        out
    }
}

} // verus!
