use vstd::prelude::*;

use core::ops::Range;
use crate::block::{read_blocks_spec, read_view, write_blocks_spec, BlockDevice, SectorState};
use crate::bytes::{push_word, push_zeros, read_word, word_at, word_bytes};
use crate::date::{today, Date};
use crate::error::Error;
use crate::fs::rt11::volume::{is_root, path_is_root, same_text};
use crate::fs::rt11::{zeros};
use super::{round_up, round_up_spec, BITMAP_WORDS_PER_MAP_BLOCK, ENTRIES_PER_UFD_BLOCK, USABLE_BLOCK_SIZE};
use super::{
    bitmap_block_bytes, entry_bytes, mfd_bitmap_block, mfd_bytes, mfd_ufd_block, name_words, parsed_bitmap_block,
    parsed_entry, parsed_mfd_one, parsed_mfd_two, BitmapBlock, DirEntry, EntryView, Mfd, MfdOneView, MfdVariantOne,
    MfdVariantTwo, MfdView,
};

verus! {

/// An XXDP volume: the device, its master file directory, the entries of
/// its user file directory with the blocks that hold them, and its bitmap,
/// one flag for each block, with the blocks that hold it.
pub struct XxdpFs<B: BlockDevice> {
    pub image: B,
    pub mfd: Mfd,
    pub ufd: Vec<DirEntry>,
    pub ufd_block_list: Vec<u16>,
    pub bitmap: Vec<bool>,
    pub bitmap_block_list: Vec<u16>,
}

/// The entries as mathematical values.
pub open spec fn entry_views(entries: Seq<DirEntry>) -> Seq<EntryView> {
    Seq::new(entries.len(), |i: int| entries[i]@)
}

/// The blocks of a chain with what they hold, as mathematical values.
pub open spec fn chain_views(list: Seq<(u16, Vec<u8>)>) -> Seq<(u16, Seq<u8>)> {
    Seq::new(list.len(), |i: int| (list[i].0, list[i].1@))
}

/// The most blocks that a chain is followed for.
pub open spec fn chain_limit() -> nat {
    65536
}

/// The chain of blocks from block `block` on, each with what it holds. The
/// first word of a block is the number of the next one, and 0 ends the
/// chain. A chain that comes to a block of `seen`, or back to one of its
/// own, is refused.
pub open spec fn chain(contents: Seq<SectorState>, size: int, block: u16, seen: Seq<u16>, fuel: nat) -> Result<
    Seq<(u16, Seq<u8>)>,
    Error,
>
    decreases fuel,
{
    if block == 0 {
        Ok(Seq::empty())
    } else if seen.contains(block) || fuel == 0 {
        Err(Error::Format)
    } else {
        match read_blocks_spec(contents, size, block as int, 1) {
            Err(e) => Err(e),
            Ok(bytes) => if bytes.len() < 2 {
                Err(Error::Format)
            } else {
                match chain(contents, size, word_at(bytes, 0), seen.push(block), (fuel - 1) as nat) {
                    Err(e) => Err(e),
                    Ok(rest) => Ok(seq![(block, bytes)] + rest),
                }
            },
        }
    }
}

/// The chain of blocks that begins at block `start`.
pub open spec fn chain_from(contents: Seq<SectorState>, size: int, start: u16) -> Result<Seq<(u16, Seq<u8>)>, Error> {
    chain(contents, size, start, Seq::empty(), chain_limit())
}

/// The numbers of the blocks of a chain.
pub open spec fn chain_blocks(list: Seq<(u16, Seq<u8>)>) -> Seq<u16> {
    Seq::new(list.len(), |i: int| list[i].0)
}

/// The entries in the directory block `buf` from byte `at` on.
pub open spec fn block_entries(buf: Seq<u8>, at: int) -> Result<Seq<EntryView>, Error>
    decreases buf.len() - at,
{
    match parsed_entry(buf, at) {
        Err(e) => Err(e),
        Ok(None) => Ok(Seq::empty()),
        Ok(Some(e)) => if at < 0 || at + 18 > buf.len() {
            Err(Error::Format)
        } else {
            match block_entries(buf, at + 18) {
                Err(err) => Err(err),
                Ok(rest) => Ok(seq![e] + rest),
            }
        },
    }
}

/// The entries in the blocks of a chain, each block read from byte 2 on.
pub open spec fn chain_entries(list: Seq<(u16, Seq<u8>)>) -> Result<Seq<EntryView>, Error>
    decreases list.len(),
{
    if list.len() == 0 {
        Ok(Seq::empty())
    } else {
        match chain_entries(list.drop_last()) {
            Err(e) => Err(e),
            Ok(head) => match block_entries(list.last().1, 2) {
                Err(e) => Err(e),
                Ok(last) => Ok(head + last),
            },
        }
    }
}

/// Two to the power `n`.
pub open spec fn pow2(n: nat) -> int
    decreases n,
{
    if n == 0 {
        1
    } else {
        2 * pow2((n - 1) as nat)
    }
}

/// The sixteen flags of each word, the lowest bit first.
pub open spec fn words_bits(words: Seq<u16>) -> Seq<bool> {
    Seq::new(16 * words.len(), |i: int| (words[i / 16] as int / pow2((i % 16) as nat)) % 2 == 1)
}

/// The flags in the blocks of a bitmap chain.
pub open spec fn chain_bits(list: Seq<(u16, Seq<u8>)>) -> Result<Seq<bool>, Error>
    decreases list.len(),
{
    if list.len() == 0 {
        Ok(Seq::empty())
    } else {
        match chain_bits(list.drop_last()) {
            Err(e) => Err(e),
            Ok(head) => match parsed_bitmap_block(list.last().1) {
                Err(e) => Err(e),
                Ok(words) => Ok(head + words_bits(words)),
            },
        }
    }
}

/// What a volume holds besides its device, as a mathematical value.
pub struct VolumeView {
    pub mfd: MfdView,
    pub ufd: Seq<EntryView>,
    pub ufd_block_list: Seq<u16>,
    pub bitmap: Seq<bool>,
    pub bitmap_block_list: Seq<u16>,
}

/// The master file directory on a device with these sectors: block 1 and
/// the block that its first word names make the first form; where the
/// first word is 0, block 1 alone makes the second.
pub open spec fn loaded_mfd(contents: Seq<SectorState>, size: int) -> Result<MfdView, Error> {
    match read_blocks_spec(contents, size, 1, 1) {
        Err(e) => Err(e),
        Ok(first) => if first.len() < 2 {
            Err(Error::Format)
        } else if word_at(first, 0) == 0 {
            match parsed_mfd_two(first) {
                Err(e) => Err(e),
                Ok(m) => Ok(MfdView::VariantTwo(m)),
            }
        } else {
            match read_blocks_spec(contents, size, word_at(first, 0) as int, 1) {
                Err(e) => Err(e),
                Ok(second) => match parsed_mfd_one(first, second) {
                    Err(e) => Err(e),
                    Ok(m) => Ok(MfdView::VariantOne(m)),
                },
            }
        },
    }
}

/// The entries of the user file directory whose chain begins at block
/// `start`, and the blocks of the chain.
pub open spec fn loaded_ufd(contents: Seq<SectorState>, size: int, start: u16) -> Result<
    (Seq<EntryView>, Seq<u16>),
    Error,
> {
    match chain_from(contents, size, start) {
        Err(e) => Err(e),
        Ok(list) => match chain_entries(list) {
            Err(e) => Err(e),
            Ok(entries) => Ok((entries, chain_blocks(list))),
        },
    }
}

/// The flags of the bitmap whose chain begins at block `start`, and the
/// blocks of the chain.
pub open spec fn loaded_bitmap(contents: Seq<SectorState>, size: int, start: u16) -> Result<
    (Seq<bool>, Seq<u16>),
    Error,
> {
    match chain_from(contents, size, start) {
        Err(e) => Err(e),
        Ok(list) => match chain_bits(list) {
            Err(e) => Err(e),
            Ok(bits) => Ok((bits, chain_blocks(list))),
        },
    }
}

/// Whole blocks on a device with these sectors.
pub open spec fn device_blocks(contents: Seq<SectorState>, size: int) -> int {
    contents.len() * size / 512
}

/// The most blocks that a volume can have: block numbers are words.
pub open spec fn volume_limit() -> int {
    65535
}

/// The volume on a device with these sectors. The bitmap is cut to one flag
/// for each block of the device. A bitmap with fewer flags than the device
/// has blocks, one with no block of its own, and a device of more than
/// 65535 blocks are refused.
pub open spec fn loaded(contents: Seq<SectorState>, size: int) -> Result<VolumeView, Error> {
    match loaded_mfd(contents, size) {
        Err(e) => Err(e),
        Ok(mfd) => match loaded_ufd(contents, size, mfd_ufd_block(mfd)) {
            Err(e) => Err(e),
            Ok((ufd, ufd_block_list)) => match loaded_bitmap(contents, size, mfd_bitmap_block(mfd)) {
                Err(e) => Err(e),
                Ok((bits, bitmap_block_list)) => {
                    let blocks = device_blocks(contents, size);
                    if blocks > bits.len() || bitmap_block_list.len() == 0 {
                        Err(Error::Format)
                    } else if blocks > volume_limit() {
                        Err(Error::OutOfRange)
                    } else {
                        Ok(
                            VolumeView {
                                mfd,
                                ufd,
                                ufd_block_list,
                                bitmap: bits.subrange(0, blocks),
                                bitmap_block_list,
                            },
                        )
                    }
                },
            },
        }
    }
}

/// The dates of the entries are days of the calendar.
pub open spec fn dates_wf(ufd: Seq<EntryView>) -> bool {
    forall|i: int| 0 <= i < ufd.len() ==> ((#[trigger] ufd[i]).date matches Some(d) ==> d.wf())
}

/// The volume is consistent with a device of `blocks` blocks: the bitmap
/// has a flag for each block and a block to lie in, no more than 65535
/// blocks, the master file directory can be written, and the dates are days
/// of the calendar.
pub open spec fn volume_wf(v: VolumeView, blocks: int) -> bool {
    &&& v.bitmap.len() == blocks
    &&& blocks <= volume_limit()
    &&& v.bitmap_block_list.len() >= 1
    &&& (v.mfd matches MfdView::VariantOne(m) ==> m.bitmap_pointer.len() <= super::pointer_limit())
    &&& dates_wf(v.ufd)
}

pub proof fn lemma_push_contains(seen: Seq<u16>, block: u16, other: u16)
    ensures
        seen.push(block).contains(other) == (seen.contains(other) || other == block),
{
    if seen.contains(other) {
        let i = choose|i: int| 0 <= i < seen.len() && seen[i] == other;
        assert(seen.push(block)[i] == other);
    }
    if other == block {
        assert(seen.push(block)[seen.len() as int] == other);
    }
    if seen.push(block).contains(other) {
        let i = choose|i: int| 0 <= i < seen.push(block).len() && seen.push(block)[i] == other;
        if i < seen.len() {
            assert(seen[i] == other);
        }
    }
}

/// The chain found so far followed by what is still to be read.
pub open spec fn chain_then(found: Seq<(u16, Seq<u8>)>, rest: Result<Seq<(u16, Seq<u8>)>, Error>) -> Result<
    Seq<(u16, Seq<u8>)>,
    Error,
> {
    match rest {
        Err(e) => Err(e),
        Ok(more) => Ok(found + more),
    }
}

impl<B: BlockDevice> XxdpFs<B> {
    /// What the volume holds besides its device, as a mathematical value.
    pub open spec fn view(&self) -> VolumeView {
        VolumeView {
            mfd: self.mfd@,
            ufd: entry_views(self.ufd@),
            ufd_block_list: self.ufd_block_list@,
            bitmap: self.bitmap@,
            bitmap_block_list: self.bitmap_block_list@,
        }
    }

    /// The device can be used and the volume is consistent with it.
    pub open spec fn wf(&self) -> bool {
        self.image.wf() && volume_wf(self.view(), device_blocks(self.image.contents(), self.image.sector_size_spec()))
    }

    /// Reads the chain of blocks that begins at block `start_block`: each
    /// block with what it holds.
    pub fn read_chain_raw(image: &B, start_block: u16) -> (r: Result<Vec<(u16, Vec<u8>)>, Error>)
        requires
            image.wf(),
        ensures
            match r {
                Ok(list) => chain_from(image.contents(), image.sector_size_spec(), start_block) == Ok::<
                    Seq<(u16, Seq<u8>)>,
                    Error,
                >(chain_views(list@)),
                Err(e) => chain_from(image.contents(), image.sector_size_spec(), start_block) == Err::<
                    Seq<(u16, Seq<u8>)>,
                    Error,
                >(e),
            },
    {
        let ghost contents = image.contents();
        let ghost size = image.sector_size_spec();
        let ghost whole = chain_from(contents, size, start_block);
        let mut flags: Vec<bool> = vec![false; 65536];
        let mut list: Vec<(u16, Vec<u8>)> = Vec::new();
        let mut block = start_block;
        let mut fuel: u32 = 65536;
        let ghost mut seen: Seq<u16> = Seq::empty();
        proof {
            assert(chain_views(list@) =~= Seq::<(u16, Seq<u8>)>::empty());
            if let Ok(more) = whole {
                assert(Seq::<(u16, Seq<u8>)>::empty() + more =~= more);
            }
        }
        while block != 0
            invariant
                image.wf(),
                contents == image.contents(),
                size == image.sector_size_spec(),
                whole == chain_from(contents, size, start_block),
                flags@.len() == 65536,
                forall|b: u16| flags@[b as int] == seen.contains(b),
                whole == chain_then(chain_views(list@), chain(contents, size, block, seen, fuel as nat)),
            decreases fuel,
        {
            if flags[block as usize] || fuel == 0 {
                return Err(Error::Format);
            }
            let bytes = match image.read_blocks(block as usize, 1) {
                Ok(b) => b,
                Err(e) => { return Err(e); },
            };
            if bytes.len() < 2 {
                return Err(Error::Format);
            }
            let next = read_word(bytes.as_slice(), 0);
            let ghost found = chain_views(list@);
            let ghost item = (block, bytes@);
            proof {
                if let Ok(more) = chain(contents, size, next, seen.push(block), (fuel - 1) as nat) {
                    assert(found + (seq![item] + more) =~= found.push(item) + more);
                }
                assert forall|b: u16| (b == block || flags@[b as int]) == seen.push(block).contains(b) by {
                    lemma_push_contains(seen, block, b);
                }
            }
            flags[block as usize] = true;
            list.push((block, bytes));
            proof {
                seen = seen.push(block);
                assert(chain_views(list@) =~= found.push(item));
            }
            block = next;
            fuel = fuel - 1;
        }
        proof {
            assert(chain_views(list@) + Seq::<(u16, Seq<u8>)>::empty() =~= chain_views(list@));
        }
        Ok(list)
    }

    /// Reads the master file directory.
    pub fn read_master_file_directory(image: &B) -> (r: Result<Mfd, Error>)
        requires
            image.wf(),
        ensures
            match r {
                Ok(m) => loaded_mfd(image.contents(), image.sector_size_spec()) == Ok::<MfdView, Error>(m@) && m.wf(),
                Err(e) => loaded_mfd(image.contents(), image.sector_size_spec()) == Err::<MfdView, Error>(e),
            },
    {
        let first = match image.read_blocks(1, 1) {
            Ok(b) => b,
            Err(e) => { return Err(e); },
        };
        if first.len() < 2 {
            return Err(Error::Format);
        }
        let next = read_word(first.as_slice(), 0);
        if next == 0 {
            return match MfdVariantTwo::from_repr(1, first.as_slice(), first.as_slice()) {
                Ok(m) => Ok(Mfd::VariantTwo(m)),
                Err(e) => Err(e),
            };
        }
        let second = match image.read_blocks(next as usize, 1) {
            Ok(b) => b,
            Err(e) => { return Err(e); },
        };
        match MfdVariantOne::from_repr(1, first.as_slice(), second.as_slice()) {
            Ok(m) => Ok(Mfd::VariantOne(m)),
            Err(e) => Err(e),
        }
    }

    /// Reads the user file directory whose chain begins at block
    /// `start_block`: its entries and the blocks that hold them.
    pub fn read_user_file_directory(image: &B, start_block: u16) -> (r: Result<(Vec<DirEntry>, Vec<u16>), Error>)
        requires
            image.wf(),
        ensures
            match r {
                Ok((entries, blocks)) => loaded_ufd(image.contents(), image.sector_size_spec(), start_block) == Ok::<
                    (Seq<EntryView>, Seq<u16>),
                    Error,
                >((entry_views(entries@), blocks@)) && dates_wf(entry_views(entries@)),
                Err(e) => loaded_ufd(image.contents(), image.sector_size_spec(), start_block) == Err::<
                    (Seq<EntryView>, Seq<u16>),
                    Error,
                >(e),
            },
    {
        let blocklist = match Self::read_chain_raw(image, start_block) {
            Ok(l) => l,
            Err(e) => { return Err(e); },
        };
        let ghost list = chain_views(blocklist@);
        let mut entries: Vec<DirEntry> = Vec::new();
        let mut block_list: Vec<u16> = Vec::new();
        let mut i: usize = 0;
        proof {
            assert(list.subrange(0, 0) =~= Seq::<(u16, Seq<u8>)>::empty());
            assert(entry_views(entries@) =~= Seq::<EntryView>::empty());
        }
        while i < blocklist.len()
            invariant
                i <= blocklist@.len(),
                list == chain_views(blocklist@),
                chain_from(image.contents(), image.sector_size_spec(), start_block) == Ok::<Seq<(u16, Seq<u8>)>, Error>(list),
                chain_entries(list.subrange(0, i as int)) == Ok::<Seq<EntryView>, Error>(entry_views(entries@)),
                block_list@ == chain_blocks(list.subrange(0, i as int)),
                dates_wf(entry_views(entries@)),
            decreases blocklist@.len() - i,
        {
            let buf = blocklist[i].1.as_slice();
            let total = buf.len();
            let ghost before = entry_views(entries@);
            let ghost part = block_entries(buf@, 2);
            let mut at: usize = 2;
            proof {
                assert(list.subrange(0, i + 1).drop_last() =~= list.subrange(0, i as int));
                assert(list[i as int].1 == buf@);
                if let Ok(more) = part {
                    assert(Seq::<EntryView>::empty() + more =~= more);
                }
            }
            let ghost mut got: Seq<EntryView> = Seq::empty();
            loop
                invariant_except_break
                    part == (match block_entries(buf@, at as int) {
                        Err(e) => Err(e),
                        Ok(more) => Ok(got + more),
                    }),
                invariant
                    i < blocklist@.len(),
                    total == buf@.len(),
                    list == chain_views(blocklist@),
                    chain_from(image.contents(), image.sector_size_spec(), start_block) == Ok::<Seq<(u16, Seq<u8>)>, Error>(list),
                    list[i as int].1 == buf@,
                    part == block_entries(buf@, 2),
                    chain_entries(list.subrange(0, i as int)) == Ok::<Seq<EntryView>, Error>(before),
                    list.subrange(0, i + 1).drop_last() == list.subrange(0, i as int),
                    entry_views(entries@) == before + got,
                    dates_wf(entry_views(entries@)),
                    2 <= at <= buf@.len() + 18,
                ensures
                    part == Ok::<Seq<EntryView>, Error>(got),
                decreases buf@.len() + 18 - at,
            {
                proof {
                    reveal_with_fuel(block_entries, 1);
                }
                let entry = match DirEntry::from_repr(buf, at) {
                    Err(e) => {
                        proof {
                            assert(part == Err::<Seq<EntryView>, Error>(e));
                            assert(list.subrange(0, i + 1).last() == list[i as int]);
                            assert(chain_entries(list.subrange(0, i + 1)) == Err::<Seq<EntryView>, Error>(e));
                            lemma_chain_entries_error(list, i + 1);
                        }
                        return Err(e);
                    },
                    Ok(None) => {
                        proof {
                            assert(got + Seq::<EntryView>::empty() =~= got);
                        }
                        break ;
                    },
                    Ok(Some(entry)) => entry,
                };
                let ghost ev = entry@;
                let ghost had = entry_views(entries@);
                proof {
                    if let Ok(more) = block_entries(buf@, at + 18) {
                        assert(got + (seq![ev] + more) =~= got.push(ev) + more);
                    }
                }
                entries.push(entry);
                at = at + 18;
                proof {
                    got = got.push(ev);
                    assert(entry_views(entries@) =~= had.push(ev));
                    assert(before + got =~= had.push(ev));
                }
            }
            block_list.push(blocklist[i].0);
            proof {
                assert(block_list@ =~= chain_blocks(list.subrange(0, i + 1)));
                assert(list.subrange(0, i + 1).last() == list[i as int]);
            }
            i += 1;
        }
        proof {
            assert(list.subrange(0, blocklist@.len() as int) =~= list);
        }
        Ok((entries, block_list))
    }

    /// Reads the bitmap whose chain begins at block `start_block`: its flags
    /// and the blocks that hold them.
    pub fn read_bitmap(image: &B, start_block: u16) -> (r: Result<(Vec<bool>, Vec<u16>), Error>)
        requires
            image.wf(),
        ensures
            match r {
                Ok((bits, blocks)) => loaded_bitmap(image.contents(), image.sector_size_spec(), start_block) == Ok::<
                    (Seq<bool>, Seq<u16>),
                    Error,
                >((bits@, blocks@)),
                Err(e) => loaded_bitmap(image.contents(), image.sector_size_spec(), start_block) == Err::<
                    (Seq<bool>, Seq<u16>),
                    Error,
                >(e),
            },
    {
        let blocklist = match Self::read_chain_raw(image, start_block) {
            Ok(l) => l,
            Err(e) => { return Err(e); },
        };
        let ghost list = chain_views(blocklist@);
        let mut bitmap: Vec<bool> = Vec::new();
        let mut block_list: Vec<u16> = Vec::new();
        let mut i: usize = 0;
        proof {
            assert(list.subrange(0, 0) =~= Seq::<(u16, Seq<u8>)>::empty());
            assert(bitmap@ =~= Seq::<bool>::empty());
        }
        while i < blocklist.len()
            invariant
                i <= blocklist@.len(),
                list == chain_views(blocklist@),
                chain_from(image.contents(), image.sector_size_spec(), start_block) == Ok::<Seq<(u16, Seq<u8>)>, Error>(list),
                chain_bits(list.subrange(0, i as int)) == Ok::<Seq<bool>, Error>(bitmap@),
                block_list@ == chain_blocks(list.subrange(0, i as int)),
            decreases blocklist@.len() - i,
        {
            proof {
                assert(list.subrange(0, i + 1).drop_last() =~= list.subrange(0, i as int));
                assert(list.subrange(0, i + 1).last() == list[i as int]);
                assert(list[i as int].1 == blocklist@[i as int].1@);
            }
            let bb = match BitmapBlock::from_repr(blocklist[i].1.as_slice()) {
                Ok(b) => b,
                Err(e) => {
                    proof {
                        assert(chain_bits(list.subrange(0, i + 1)) == Err::<Seq<bool>, Error>(e));
                        lemma_chain_bits_error(list, i + 1);
                    }
                    return Err(e);
                },
            };
            push_bits(&mut bitmap, &bb.entries);
            block_list.push(blocklist[i].0);
            proof {
                assert(block_list@ =~= chain_blocks(list.subrange(0, i + 1)));
            }
            i += 1;
        }
        proof {
            assert(list.subrange(0, blocklist@.len() as int) =~= list);
        }
        Ok((bitmap, block_list))
    }

    /// Opens the volume on `image`.
    pub fn new(image: B) -> (r: Result<XxdpFs<B>, Error>)
        requires
            image.wf(),
        ensures
            match r {
                Ok(fs) => fs.wf() && fs.image == image && loaded(image.contents(), image.sector_size_spec()) == Ok::<
                    VolumeView,
                    Error,
                >(fs.view()),
                Err(e) => loaded(image.contents(), image.sector_size_spec()) == Err::<VolumeView, Error>(e),
            },
    {
        match Self::try_new(&image) {
            Err(e) => Err(e),
            Ok((mfd, ufd, ufd_block_list, bitmap, bitmap_block_list)) => Ok(
                XxdpFs { image, mfd, ufd, ufd_block_list, bitmap, bitmap_block_list },
            ),
        }
    }

    /// The image holds a volume.
    pub fn image_is(image: &B) -> (b: bool)
        requires
            image.wf(),
        ensures
            b == loaded(image.contents(), image.sector_size_spec()) is Ok,
    {
        Self::try_new(image).is_ok()
    }

    /// Reads all that a volume holds from `image`.
    fn try_new(image: &B) -> (r: Result<(Mfd, Vec<DirEntry>, Vec<u16>, Vec<bool>, Vec<u16>), Error>)
        requires
            image.wf(),
        ensures
            match r {
                Ok((mfd, ufd, ufd_block_list, bitmap, bitmap_block_list)) => {
                    let v = VolumeView {
                        mfd: mfd@,
                        ufd: entry_views(ufd@),
                        ufd_block_list: ufd_block_list@,
                        bitmap: bitmap@,
                        bitmap_block_list: bitmap_block_list@,
                    };
                    loaded(image.contents(), image.sector_size_spec()) == Ok::<VolumeView, Error>(v) && volume_wf(
                        v,
                        device_blocks(image.contents(), image.sector_size_spec()),
                    )
                },
                Err(e) => loaded(image.contents(), image.sector_size_spec()) == Err::<VolumeView, Error>(e),
            },
    {
        let mfd = match Self::read_master_file_directory(image) {
            Ok(m) => m,
            Err(e) => { return Err(e); },
        };
        let (ufd, ufd_block_list) = match Self::read_user_file_directory(image, mfd.ufd_block()) {
            Ok(u) => u,
            Err(e) => { return Err(e); },
        };
        let (mut bitmap, bitmap_block_list) = match Self::read_bitmap(image, mfd.bitmap_block()) {
            Ok(b) => b,
            Err(e) => { return Err(e); },
        };
        let blocks = image.blocks();
        if blocks > bitmap.len() || bitmap_block_list.len() == 0 {
            return Err(Error::Format);
        }
        if blocks > 65535 {
            return Err(Error::OutOfRange);
        }
        bitmap.truncate(blocks);
        Ok((mfd, ufd, ufd_block_list, bitmap, bitmap_block_list))
    }

    /// Writes `data` to the blocks of `block_list`, 510 bytes to a block
    /// after the word that names the next block; the last block names none,
    /// and a block that `data` does not fill is filled up with zeros.
    pub fn write_block_chain(image: &mut B, block_list: &[u16], data: &[u8]) -> (r: Result<(), Error>)
        requires
            old(image).wf(),
        ensures
            final(image).wf(),
            final(image).sector_size_spec() == old(image).sector_size_spec(),
            final(image).contents().len() == old(image).contents().len(),
            (r, final(image).contents()) == chain_written(
                old(image).contents(),
                old(image).sector_size_spec(),
                block_list@,
                data@,
                block_list@.len() as int,
            ),
    {
        let n = block_list.len();
        let len = data.len();
        let mut k: usize = 0;
        let mut from: usize = 0;
        while k < n
            invariant
                n == block_list@.len(),
                len == data@.len(),
                k <= n,
                from == chunk_start(data@, k as int),
                image.wf(),
                image.sector_size_spec() == old(image).sector_size_spec(),
                image.contents().len() == old(image).contents().len(),
                (Ok::<(), Error>(()), image.contents()) == chain_written(
                    old(image).contents(),
                    old(image).sector_size_spec(),
                    block_list@,
                    data@,
                    k as int,
                ),
            decreases n - k,
        {
            let next: u16 = if k + 1 < n { block_list[k + 1] } else { 0 };
            let to: usize = if len - from > USABLE_BLOCK_SIZE { from + USABLE_BLOCK_SIZE } else { len };
            proof {
                assert(k * 510 + 510 == (k + 1) * 510) by (nonlinear_arith);
                assert(to == chunk_start(data@, k + 1));
            }
            let mut buf: Vec<u8> = Vec::new();
            push_word(&mut buf, next);
            buf.extend_from_slice(vstd::slice::slice_subrange(data, from, to));
            push_zeros(&mut buf, USABLE_BLOCK_SIZE - (to - from));
            proof {
                assert(buf@ =~= chain_block(block_list@, data@, k as int));
            }
            match image.write_blocks(block_list[k] as usize, 1, buf.as_slice()) {
                Ok(()) => {},
                Err(e) => {
                    proof {
                        lemma_chain_written_error(
                            old(image).contents(),
                            old(image).sector_size_spec(),
                            block_list@,
                            data@,
                            k + 1,
                            n as int,
                        );
                    }
                    return Err(e);
                },
            }
            from = to;
            k += 1;
        }
        Ok(())
    }

    /// Writes the user file directory to its blocks.
    pub fn write_ufd(&mut self) -> (r: Result<(), Error>)
        requires
            old(self).wf(),
        ensures
            final(self).wf(),
            final(self).view() == old(self).view(),
            final(self).image.sector_size_spec() == old(self).image.sector_size_spec(),
            final(self).image.contents().len() == old(self).image.contents().len(),
            (r, final(self).image.contents()) == ufd_written(
                old(self).view(),
                old(self).image.contents(),
                old(self).image.sector_size_spec(),
            ),
    {
        let ghost views = entry_views(self.ufd@);
        let mut buf: Vec<u8> = Vec::new();
        let n = self.ufd.len();
        let mut i: usize = 0;
        proof {
            assert(views.subrange(0, 0) =~= Seq::<EntryView>::empty());
            assert(buf@ =~= Seq::<u8>::empty());
        }
        while i < n
            invariant
                n == self.ufd@.len(),
                i <= n,
                views == entry_views(self.ufd@),
                dates_wf(views),
                packed(views.subrange(0, i as int)) == Ok::<Seq<u8>, Error>(buf@),
                self.wf(),
                *self == *old(self),
            decreases n - i,
        {
            proof {
                assert(views.subrange(0, i + 1).drop_last() =~= views.subrange(0, i as int));
                assert(views.subrange(0, i + 1).last() == views[i as int]);
                assert(views[i as int] == self.ufd@[i as int]@);
            }
            let ghost before = buf@;
            if i > 0 && i % ENTRIES_PER_UFD_BLOCK == 0 {
                push_zeros(&mut buf, 6);
            }
            match self.ufd[i].repr() {
                Ok(bytes) => {
                    let mut bytes = bytes;
                    let ghost piece = bytes@;
                    buf.append(&mut bytes);
                    proof {
                        assert(buf@ =~= before + group_gap(i as int) + piece);
                    }
                },
                Err(e) => {
                    proof {
                        lemma_packed_error(views, i + 1);
                    }
                    return Err(e);
                },
            }
            i += 1;
        }
        proof {
            assert(views.subrange(0, n as int) =~= views);
        }
        if n > 0 {
            let pad = USABLE_BLOCK_SIZE - buf.len() % USABLE_BLOCK_SIZE;
            push_zeros(&mut buf, pad);
        }
        Self::write_block_chain(&mut self.image, self.ufd_block_list.as_slice(), buf.as_slice())
    }

    /// Writes the bitmap to its blocks.
    pub fn write_bitmap(&mut self) -> (r: Result<(), Error>)
        requires
            old(self).wf(),
        ensures
            final(self).wf(),
            final(self).view() == old(self).view(),
            final(self).image.sector_size_spec() == old(self).image.sector_size_spec(),
            final(self).image.contents().len() == old(self).image.contents().len(),
            (r, final(self).image.contents()) == bitmap_written(
                old(self).view(),
                old(self).image.contents(),
                old(self).image.sector_size_spec(),
            ),
    {
        let first = self.bitmap_block_list[0];
        let buf = bitmap_bytes(&self.bitmap, first);
        Self::write_block_chain(&mut self.image, self.bitmap_block_list.as_slice(), buf.as_slice())
    }

    /// Writes the master file directory to its two blocks. Only the first
    /// form can be written.
    pub fn write_mfd(&mut self) -> (r: Result<(), Error>)
        requires
            old(self).wf(),
        ensures
            final(self).wf(),
            final(self).view() == old(self).view(),
            final(self).image.sector_size_spec() == old(self).image.sector_size_spec(),
            final(self).image.contents().len() == old(self).image.contents().len(),
            (r, final(self).image.contents()) == mfd_written(
                old(self).view(),
                old(self).image.contents(),
                old(self).image.sector_size_spec(),
            ),
    {
        let mfd2_block = match &self.mfd {
            Mfd::VariantOne(v1) => v1.mfd2_block,
            Mfd::VariantTwo(_) => { return Err(Error::Unsupported); },
        };
        let (buf1, buf2) = self.mfd.repr();
        match self.image.write_blocks(1, 1, buf1.as_slice()) {
            Ok(()) => {},
            Err(e) => { return Err(e); },
        }
        self.image.write_blocks(mfd2_block as usize, 1, buf2.as_slice())
    }

    /// The runs of free blocks, in the order of the blocks.
    pub fn calculate_bitmap_free_spans(&self) -> (spans: Vec<Range<u16>>)
        requires
            self.bitmap@.len() <= volume_limit(),
        ensures
            span_views(spans@) == free_spans(self.bitmap@),
    {
        let n = self.bitmap.len();
        let mut spans: Vec<Range<u16>> = Vec::new();
        let mut start: Option<u16> = None;
        let mut i: usize = 0;
        let ghost whole = free_spans(self.bitmap@);
        proof {
            assert(span_views(spans@) =~= Seq::<(int, int)>::empty());
            assert(Seq::<(int, int)>::empty() + whole =~= whole);
        }
        while i < n
            invariant
                n == self.bitmap@.len(),
                n <= 65535,
                i <= n,
                whole == span_views(spans@) + spans_from(self.bitmap@, i as int, open_view(start)),
            decreases n - i,
        {
            let flag = self.bitmap[i];
            let ghost found = span_views(spans@);
            match start {
                None => {
                    if !flag {
                        start = Some(i as u16);
                    }
                },
                Some(s) => {
                    if flag {
                        proof {
                            let rest = spans_from(self.bitmap@, i + 1, None);
                            assert(found + (seq![(s as int, i as int)] + rest) =~= found.push((s as int, i as int)) + rest);
                        }
                        spans.push(Range { start: s, end: i as u16 });
                        proof {
                            assert(span_views(spans@) =~= found.push((s as int, i as int)));
                        }
                        start = None;
                    }
                },
            }
            i += 1;
        }
        match start {
            Some(s) => {
                let ghost found = span_views(spans@);
                spans.push(Range { start: s, end: n as u16 });
                proof {
                    assert(span_views(spans@) =~= found + seq![(s as int, n as int)]);
                }
            },
            None => {
                proof {
                    assert(span_views(spans@) + Seq::<(int, int)>::empty() =~= span_views(spans@));
                }
            },
        }
        spans
    }

    /// Takes `blocks` free blocks and marks them used. A run of just that
    /// many blocks is taken first, else the longest run, and of runs alike
    /// the last.
    pub fn allocate_blocks(&mut self, blocks: u16) -> (r: Result<Vec<u16>, Error>)
        requires
            old(self).wf(),
        ensures
            final(self).wf(),
            final(self).image == old(self).image,
            final(self).view() == (VolumeView { bitmap: final(self).bitmap@, ..old(self).view() }),
            match r {
                Ok(list) => allocated(old(self).bitmap@, blocks as int) == (Ok::<Seq<u16>, Error>(list@), final(self).bitmap@)
                    && list@.len() == blocks,
                Err(e) => allocated(old(self).bitmap@, blocks as int) == (Err::<Seq<u16>, Error>(e), final(self).bitmap@),
            },
    {
        let mut spans = self.calculate_bitmap_free_spans();
        let mut list: Vec<u16> = Vec::new();
        let mut count: u16 = blocks;
        let ghost whole = allocated(self.bitmap@, blocks as int);
        proof {
            lemma_free_spans_valid(self.bitmap@);
            assert(list@ =~= Seq::<u16>::empty());
        }
        while count > 0
            invariant
                self.wf(),
                self.image == old(self).image,
                self.mfd == old(self).mfd,
                self.ufd == old(self).ufd,
                self.ufd_block_list == old(self).ufd_block_list,
                self.bitmap_block_list == old(self).bitmap_block_list,
                self.bitmap@.len() == old(self).bitmap@.len(),
                whole == allocated(old(self).bitmap@, blocks as int),
                self.bitmap@.len() <= 65535,
                spans_valid(span_views(spans@), self.bitmap@.len() as int),
                list@.len() + count == blocks,
                whole == taken(self.bitmap@, span_views(spans@), blocks as int, count as int, list@),
            decreases spans@.len(),
        {
            if spans.len() == 0 {
                return Err(Error::NoSpace);
            }
            let best = best_span(&spans, blocks);
            let ghost before = span_views(spans@);
            proof {
                assert(0 <= before[best as int].0 < before[best as int].1 <= self.bitmap@.len());
            }
            let span = spans.remove(best);
            proof {
                assert(span_views(spans@) =~= before.remove(best as int));
                assert(before[best as int] == (span.start as int, span.end as int));
            }
            let size = span.end - span.start;
            let take: u16 = if size < count { size } else { count };
            take_blocks(&mut self.bitmap, &mut list, span.start, take);
            count = count - take;
        }
        Ok(list)
    }

    /// The first slot of the directory that holds no file; where there is
    /// none the directory gets one more block with 28 free slots.
    pub fn allocate_dir_entry(&mut self) -> (r: Result<usize, Error>)
        requires
            old(self).wf(),
        ensures
            final(self).wf(),
            final(self).image.sector_size_spec() == old(self).image.sector_size_spec(),
            final(self).image.contents().len() == old(self).image.contents().len(),
            ({
                let out = slot_outcome(old(self).view(), old(self).image.contents(), old(self).image.sector_size_spec());
                &&& final(self).view() == out.1
                &&& final(self).image.contents() == out.2
                &&& match r {
                    Ok(i) => out.0 == Ok::<int, Error>(i as int) && i < final(self).ufd@.len(),
                    Err(e) => out.0 == Err::<int, Error>(e),
                }
            }),
    {
        let ghost views = entry_views(self.ufd@);
        let mut i: usize = 0;
        while i < self.ufd.len()
            invariant
                i <= self.ufd@.len(),
                *self == *old(self),
                self.wf(),
                views == entry_views(self.ufd@),
                first_free(views, 0) == first_free(views, i as int),
            decreases self.ufd@.len() - i,
        {
            assert(views[i as int] == self.ufd@[i as int]@);
            if self.ufd[i].name.is_none() {
                return Ok(i);
            }
            i += 1;
        }
        let ufd_block = match self.allocate_blocks(1) {
            Ok(list) => list[0],
            Err(e) => { return Err(e); },
        };
        self.ufd_block_list.push(ufd_block);
        let new_dir_entry = self.ufd.len();
        let mut k: usize = 0;
        while k < ENTRIES_PER_UFD_BLOCK
            invariant
                k <= 28,
                self.image == old(self).image,
                self.mfd@ == old(self).mfd@,
                self.bitmap@ == allocated(old(self).bitmap@, 1).1,
                self.ufd_block_list@ == old(self).ufd_block_list@.push(ufd_block),
                self.bitmap_block_list@ == old(self).bitmap_block_list@,
                entry_views(self.ufd@) == views + free_entries(k as int),
            decreases 28 - k,
        {
            let ghost had = entry_views(self.ufd@);
            self.ufd.push(DirEntry::free());
            k += 1;
            proof {
                assert(entry_views(self.ufd@) =~= had.push(super::free_entry()));
                assert(views + free_entries(k as int) =~= had.push(super::free_entry()));
            }
        }
        proof {
            assert(dates_wf(entry_views(self.ufd@))) by {
                assert forall|j: int| 0 <= j < entry_views(self.ufd@).len() implies ((#[trigger] entry_views(
                    self.ufd@,
                )[j]).date matches Some(d) ==> d.wf()) by {
                    if j < views.len() {
                        assert(views[j] == old(self).view().ufd[j]);
                    }
                }
            }
        }
        match self.write_bitmap() {
            Ok(()) => {},
            Err(e) => { return Err(e); },
        }
        match self.write_ufd() {
            Ok(()) => {},
            Err(e) => { return Err(e); },
        }
        Ok(new_dir_entry)
    }

    /// The first slot that holds a file named `name`.
    pub fn raw_stat(&self, name: &str) -> (r: Option<(usize, &DirEntry)>)
        ensures
            match r {
                Some((i, entry)) => named_slot(self.view().ufd, name@, 0) == Some(i as int) && i < self.ufd@.len()
                    && *entry == self.ufd@[i as int],
                None => named_slot(self.view().ufd, name@, 0) is None,
            },
    {
        let wanted = String::from_str(name);
        let ghost views = entry_views(self.ufd@);
        let mut i: usize = 0;
        while i < self.ufd.len()
            invariant
                i <= self.ufd@.len(),
                wanted@ == name@,
                views == entry_views(self.ufd@),
                named_slot(views, name@, 0) == named_slot(views, name@, i as int),
            decreases self.ufd@.len() - i,
        {
            assert(views[i as int] == self.ufd@[i as int]@);
            let found = match &self.ufd[i].name {
                Some(n) => *n == wanted,
                None => false,
            };
            if found {
                return Some((i, &self.ufd[i]));
            }
            i += 1;
        }
        None
    }

    /// A copy of the entry of the first file named `name`.
    pub fn stat(&self, name: &str) -> (r: Option<DirEntry>)
        ensures
            match r {
                Some(entry) => named_slot(self.view().ufd, name@, 0) matches Some(i) && 0 <= i
                    < self.view().ufd.len() && entry@ == self.view().ufd[i],
                None => named_slot(self.view().ufd, name@, 0) is None,
            },
    {
        match self.raw_stat(name) {
            Some((i, entry)) => {
                assert(self.view().ufd[i as int] == self.ufd@[i as int]@);
                Some(entry.duplicate())
            },
            None => None,
        }
    }

    /// The slots of the directory in their order: all of them, or those
    /// that hold a file.
    pub fn full_dir_iter(&self, files_only: bool) -> (list: Vec<DirEntry>)
        ensures
            entry_views(list@) == listing(self.view().ufd, files_only),
    {
        let ghost views = entry_views(self.ufd@);
        let mut list: Vec<DirEntry> = Vec::new();
        let mut i: usize = 0;
        proof {
            assert(views.subrange(0, 0) =~= Seq::<EntryView>::empty());
            assert(entry_views(list@) =~= Seq::<EntryView>::empty());
        }
        while i < self.ufd.len()
            invariant
                i <= self.ufd@.len(),
                views == entry_views(self.ufd@),
                entry_views(list@) == listing(views.subrange(0, i as int), files_only),
            decreases self.ufd@.len() - i,
        {
            proof {
                assert(views.subrange(0, i + 1).drop_last() =~= views.subrange(0, i as int));
                assert(views.subrange(0, i + 1).last() == self.ufd@[i as int]@);
            }
            if !files_only || self.ufd[i].name.is_some() {
                let ghost had = entry_views(list@);
                list.push(self.ufd[i].duplicate());
                assert(entry_views(list@) =~= had.push(self.ufd@[i as int]@));
            }
            i += 1;
        }
        assert(views.subrange(0, self.ufd@.len() as int) =~= views);
        list
    }

    /// Blocks that are free.
    pub fn free_blocks(&self) -> (n: usize)
        requires
            self.wf(),
        ensures
            n == clear_flags(self.bitmap@),
            n <= self.bitmap@.len(),
    {
        let blocks = self.image.blocks();
        let mut n: usize = 0;
        let mut i: usize = 0;
        assert(self.bitmap@.subrange(0, 0) =~= Seq::<bool>::empty());
        while i < blocks
            invariant
                blocks == self.bitmap@.len(),
                i <= blocks,
                n == clear_flags(self.bitmap@.subrange(0, i as int)),
                n <= i,
            decreases blocks - i,
        {
            assert(self.bitmap@.subrange(0, i + 1).drop_last() =~= self.bitmap@.subrange(0, i as int));
            if !self.bitmap[i] {
                n = n + 1;
            }
            i += 1;
        }
        assert(self.bitmap@.subrange(0, blocks as int) =~= self.bitmap@);
        n
    }

    /// Blocks that are in use.
    pub fn used_blocks(&self) -> (n: usize)
        requires
            self.wf(),
        ensures
            n == self.bitmap@.len() - clear_flags(self.bitmap@),
            n + clear_flags(self.bitmap@) == device_blocks(self.image.contents(), self.image.sector_size_spec()),
    {
        self.image.blocks() - self.free_blocks()
    }

    /// What the blocks of the first file named `name` hold after their
    /// links.
    pub fn read_file(&self, name: &str) -> (r: Result<Vec<u8>, Error>)
        requires
            self.wf(),
        ensures
            read_view(r) == read_file_outcome(
                self.view(),
                self.image.contents(),
                self.image.sector_size_spec(),
                name@,
            ),
    {
        let entry = match self.raw_stat(name) {
            Some((i, e)) => {
                assert(self.view().ufd[i as int] == e@);
                e
            },
            None => { return Err(Error::NotFound); },
        };
        let blocks = match Self::read_chain_raw(&self.image, entry.first_block as u16) {
            Ok(b) => b,
            Err(e) => { return Err(e); },
        };
        let ghost list = chain_views(blocks@);
        let mut contents: Vec<u8> = Vec::new();
        let mut i: usize = 0;
        proof {
            assert(list.subrange(0, 0) =~= Seq::<(u16, Seq<u8>)>::empty());
            assert(contents@ =~= Seq::<u8>::empty());
        }
        while i < blocks.len()
            invariant
                i <= blocks@.len(),
                list == chain_views(blocks@),
                contents@ == payload(list.subrange(0, i as int)),
            decreases blocks@.len() - i,
        {
            proof {
                assert(list.subrange(0, i + 1).drop_last() =~= list.subrange(0, i as int));
                assert(list.subrange(0, i + 1).last() == list[i as int]);
            }
            let bytes = blocks[i].1.as_slice();
            if bytes.len() > 2 {
                contents.extend_from_slice(vstd::slice::slice_subrange(bytes, 2, bytes.len()));
            }
            proof {
                assert(contents@ =~= payload(list.subrange(0, i + 1)));
            }
            i += 1;
        }
        assert(list.subrange(0, blocks@.len() as int) =~= list);
        Ok(contents)
    }

    /// Deletes the first file named `name`: the blocks of its chain become
    /// free and its slot holds no file.
    pub fn delete(&mut self, name: &str) -> (r: Result<(), Error>)
        requires
            old(self).wf(),
        ensures
            final(self).wf(),
            final(self).image.sector_size_spec() == old(self).image.sector_size_spec(),
            final(self).image.contents().len() == old(self).image.contents().len(),
            (r, final(self).view(), final(self).image.contents()) == delete_outcome(
                old(self).view(),
                old(self).image.contents(),
                old(self).image.sector_size_spec(),
                name@,
            ),
    {
        let entry_num = match self.raw_stat(name) {
            Some((i, _)) => i,
            None => { return Err(Error::NotFound); },
        };
        let ghost v = self.view();
        assert(v.ufd[entry_num as int] == self.ufd@[entry_num as int]@);
        let chain = match Self::read_chain_raw(&self.image, self.ufd[entry_num].first_block as u16) {
            Ok(c) => c,
            Err(e) => { return Err(e); },
        };
        let ghost blocks = chain_blocks(chain_views(chain@));
        let mut i: usize = 0;
        while i < chain.len()
            invariant
                i <= chain@.len(),
                blocks == chain_blocks(chain_views(chain@)),
                self.image == old(self).image,
                self.mfd == old(self).mfd,
                self.ufd == old(self).ufd,
                self.ufd_block_list == old(self).ufd_block_list,
                self.bitmap_block_list == old(self).bitmap_block_list,
                self.bitmap@.len() == old(self).bitmap@.len(),
                self.wf(),
                v == old(self).view(),
                entry_num < self.ufd@.len(),
                named_slot(v.ufd, name@, 0) == Some(entry_num as int),
                chain_from(
                    old(self).image.contents(),
                    old(self).image.sector_size_spec(),
                    v.ufd[entry_num as int].first_block as u16,
                ) == Ok::<Seq<(u16, Seq<u8>)>, Error>(chain_views(chain@)),
                cleared(old(self).bitmap@, blocks, i as int) == (Ok::<(), Error>(()), self.bitmap@),
            decreases chain@.len() - i,
        {
            let block_num = chain[i].0 as usize;
            assert(blocks[i as int] == chain@[i as int].0);
            if block_num >= self.bitmap.len() {
                proof {
                    lemma_cleared_error(old(self).bitmap@, blocks, i + 1, chain@.len() as int);
                }
                return Err(Error::Format);
            }
            self.bitmap[block_num] = false;
            i += 1;
        }
        self.ufd[entry_num].name = None;
        proof {
            let after = v.ufd.update(entry_num as int, EntryView { name: None, ..v.ufd[entry_num as int] });
            assert(entry_views(self.ufd@) =~= after);
            assert(dates_wf(after)) by {
                assert forall|j: int| 0 <= j < after.len() implies ((#[trigger] after[j]).date matches Some(d)
                    ==> d.wf()) by {
                    assert(v.ufd[j].date matches Some(d) ==> d.wf());
                }
            }
        }
        match self.write_ufd() {
            Ok(()) => {},
            Err(e) => { return Err(e); },
        }
        self.write_bitmap()
    }

    /// Gives the first file named `src` the name `dest`, whether or not a
    /// file named `dest` exists.
    pub fn rename_unchecked(&mut self, src: &str, dest: &str) -> (r: Result<(), Error>)
        requires
            old(self).wf(),
        ensures
            final(self).wf(),
            final(self).image.sector_size_spec() == old(self).image.sector_size_spec(),
            final(self).image.contents().len() == old(self).image.contents().len(),
            (r, final(self).view(), final(self).image.contents()) == rename_outcome(
                old(self).view(),
                old(self).image.contents(),
                old(self).image.sector_size_spec(),
                src@,
                dest@,
            ),
    {
        match DirEntry::encode_filename(dest) {
            Ok(_) => {},
            Err(e) => { return Err(e); },
        }
        let entry_num = match self.raw_stat(src) {
            Some((i, _)) => i,
            None => { return Err(Error::NotFound); },
        };
        let ghost v = self.view();
        assert(v.ufd[entry_num as int] == self.ufd@[entry_num as int]@);
        self.ufd[entry_num].name = Some(String::from_str(dest));
        proof {
            let after = v.ufd.update(entry_num as int, EntryView { name: Some(dest@), ..v.ufd[entry_num as int] });
            assert(entry_views(self.ufd@) =~= after);
            assert(dates_wf(after)) by {
                assert forall|j: int| 0 <= j < after.len() implies ((#[trigger] after[j]).date matches Some(d)
                    ==> d.wf()) by {
                    assert(v.ufd[j].date matches Some(d) ==> d.wf());
                }
            }
        }
        match self.write_ufd() {
            Ok(()) => {},
            Err(e) => { return Err(e); },
        }
        self.write_bitmap()
    }

    /// Makes a file named `name` that holds `contents`, dated `date`, in
    /// place of a file of that name.
    pub fn write_file_dated(&mut self, name: &str, contents: &[u8], date: Date) -> (r: Result<(), Error>)
        requires
            old(self).wf(),
            date.wf(),
        ensures
            final(self).wf(),
            final(self).image.sector_size_spec() == old(self).image.sector_size_spec(),
            final(self).image.contents().len() == old(self).image.contents().len(),
            (r, final(self).view(), final(self).image.contents()) == write_file_outcome(
                old(self).view(),
                old(self).image.contents(),
                old(self).image.sector_size_spec(),
                name@,
                contents@,
                date,
            ),
    {
        match DirEntry::encode_filename(name) {
            Ok(_) => {},
            Err(e) => { return Err(e); },
        }
        let _ = self.delete(name);
        let entry_num = match self.allocate_dir_entry() {
            Ok(i) => i,
            Err(e) => { return Err(e); },
        };
        let blocks = contents.len() / USABLE_BLOCK_SIZE + (if contents.len() % USABLE_BLOCK_SIZE > 0 { 1 } else { 0 });
        assert(blocks == blocks_for(contents@.len() as int));
        if blocks > 65535 {
            return Err(Error::NoSpace);
        }
        let block_list = match self.allocate_blocks(blocks as u16) {
            Ok(l) => l,
            Err(e) => { return Err(e); },
        };
        let ghost v = self.view();
        let first_block: usize = if block_list.len() > 0 { block_list[0] as usize } else { 0 };
        let last_block: usize = if block_list.len() > 0 { block_list[block_list.len() - 1] as usize } else { 0 };
        self.ufd[entry_num] = DirEntry {
            name: Some(String::from_str(name)),
            date: Some(date),
            first_block,
            length: blocks,
            last_block,
        };
        proof {
            let after = v.ufd.update(entry_num as int, file_entry(name@, date, block_list@, blocks));
            assert(entry_views(self.ufd@) =~= after);
            assert(dates_wf(after)) by {
                assert forall|j: int| 0 <= j < after.len() implies ((#[trigger] after[j]).date matches Some(d)
                    ==> d.wf()) by {
                    if j != entry_num {
                        assert(v.ufd[j].date matches Some(d) ==> d.wf());
                    }
                }
            }
        }
        match self.write_ufd() {
            Ok(()) => {},
            Err(e) => { return Err(e); },
        }
        match self.write_bitmap() {
            Ok(()) => {},
            Err(e) => { return Err(e); },
        }
        Self::write_block_chain(&mut self.image, block_list.as_slice(), contents)
    }

    /// Makes a file named `name` that holds `contents`, dated with the
    /// clock's day in universal time, in place of a file of that name. Where
    /// the clock shows no day, nothing is changed and the answer is the error
    /// for a date out of range.
    pub fn write_file(&mut self, name: &str, contents: &[u8]) -> (r: Result<(), Error>)
        requires
            old(self).wf(),
        ensures
            final(self).wf(),
            final(self).image.sector_size_spec() == old(self).image.sector_size_spec(),
            final(self).image.contents().len() == old(self).image.contents().len(),
            written_today(
                old(self).view(),
                old(self).image.contents(),
                old(self).image.sector_size_spec(),
                name@,
                contents@,
                r,
                final(self).view(),
                final(self).image.contents(),
            ),
    {
        match today() {
            Some(date) => self.write_file_dated(name, contents, date),
            None => Err(Error::DateOutOfRange),
        }
    }

    /// Makes a new volume on `image`.
    pub fn mkfs(image: B) -> (r: Result<XxdpFs<B>, Error>)
        requires
            image.wf(),
        ensures
            match r {
                Ok(fs) => fs.wf() && fs.image.sector_size_spec() == image.sector_size_spec() && mkfs_outcome(
                    image.contents(),
                    image.sector_size_spec(),
                ) == Ok::<(VolumeView, Seq<SectorState>), Error>((fs.view(), fs.image.contents())),
                Err(e) => mkfs_outcome(image.contents(), image.sector_size_spec()) == Err::<
                    (VolumeView, Seq<SectorState>),
                    Error,
                >(e),
            },
    {
        let blocks = image.blocks();
        if blocks > 65535 {
            return Err(Error::OutOfRange);
        }
        let bitmap_blocks = round_up(blocks, 16 * BITMAP_WORDS_PER_MAP_BLOCK) / (16 * BITMAP_WORDS_PER_MAP_BLOCK);
        let ufd_entries = round_up(blocks / 4, ENTRIES_PER_UFD_BLOCK);
        let ufd_blocks = ufd_entries / ENTRIES_PER_UFD_BLOCK;
        let first_free = 3 + ufd_blocks + bitmap_blocks;
        if first_free > blocks {
            return Err(Error::NoSpace);
        }
        let ufd_block: u16 = 3;
        let bitmap_block: u16 = (3 + ufd_blocks) as u16;
        let mut bitmap_pointer: Vec<u16> = Vec::new();
        let mut ufd_block_list: Vec<u16> = Vec::new();
        let mut b: usize = 0;
        while b < bitmap_blocks
            invariant
                b <= bitmap_blocks,
                bitmap_block + bitmap_blocks <= 65535,
                bitmap_pointer@ == numbers(bitmap_block as int, bitmap_block + b),
            decreases bitmap_blocks - b,
        {
            bitmap_pointer.push(bitmap_block + b as u16);
            b += 1;
            assert(bitmap_pointer@ =~= numbers(bitmap_block as int, bitmap_block + b));
        }
        b = 0;
        while b < ufd_blocks
            invariant
                b <= ufd_blocks,
                3 + ufd_blocks <= 65535,
                ufd_block_list@ == numbers(3, 3 + b),
            decreases ufd_blocks - b,
        {
            ufd_block_list.push(3 + b as u16);
            b += 1;
            assert(ufd_block_list@ =~= numbers(3, 3 + b));
        }
        let mut ufd: Vec<DirEntry> = Vec::new();
        let mut k: usize = 0;
        assert(entry_views(ufd@) =~= free_entries(0));
        while k < ufd_entries
            invariant
                k <= ufd_entries,
                entry_views(ufd@) == free_entries(k as int),
            decreases ufd_entries - k,
        {
            let ghost had = entry_views(ufd@);
            ufd.push(DirEntry::free());
            k += 1;
            assert(entry_views(ufd@) =~= had.push(super::free_entry()));
            assert(free_entries(k as int) =~= had.push(super::free_entry()));
        }
        let mut bitmap: Vec<bool> = Vec::new();
        let mut i: usize = 0;
        while i < blocks
            invariant
                i <= blocks,
                bitmap@ == Seq::new(i as nat, |j: int| j < first_free),
            decreases blocks - i,
        {
            bitmap.push(i < first_free);
            i += 1;
            assert(bitmap@ =~= Seq::new(i as nat, |j: int| j < first_free));
        }
        let bitmap_block_list = bitmap_pointer.clone();
        assert(bitmap_block_list@ =~= bitmap_pointer@);
        let mut fs = XxdpFs {
            image,
            bitmap,
            bitmap_block_list,
            ufd,
            ufd_block_list,
            mfd: Mfd::VariantOne(
                MfdVariantOne { interleave_factor: 1, mfd2_block: 2, ufd_block, bitmap_block, bitmap_pointer },
            ),
        };
        proof {
            assert(bitmap_blocks <= 69) by (nonlinear_arith)
                requires bitmap_blocks == round_up_spec(blocks as int, 960) / 960, blocks <= 65535,
                    round_up_spec(blocks as int, 960) == (blocks + 959) / 960 * 960;
            assert(fs.view() == formatted(blocks as int));
        }
        match fs.write_ufd() {
            Ok(()) => {},
            Err(e) => { return Err(e); },
        }
        match fs.write_bitmap() {
            Ok(()) => {},
            Err(e) => { return Err(e); },
        }
        match fs.write_mfd() {
            Ok(()) => {},
            Err(e) => { return Err(e); },
        }
        Ok(fs)
    }

    /// All slots of the directory; the path must be the root.
    pub fn dir_iter(&self, path: &str) -> (r: Result<Vec<DirEntry>, Error>)
        ensures
            match r {
                Ok(list) => is_root(path@) && entry_views(list@) == listing(self.view().ufd, false),
                Err(e) => !is_root(path@) && e == Error::BadPath,
            },
    {
        if !path_is_root(path) {
            return Err(Error::BadPath);
        }
        Ok(self.full_dir_iter(false))
    }

    /// The entries of the files; the path must be the root.
    pub fn read_dir(&self, path: &str) -> (r: Result<Vec<DirEntry>, Error>)
        ensures
            match r {
                Ok(list) => is_root(path@) && entry_views(list@) == listing(self.view().ufd, true),
                Err(e) => !is_root(path@) && e == Error::BadPath,
            },
    {
        if !path_is_root(path) {
            return Err(Error::BadPath);
        }
        Ok(self.full_dir_iter(true))
    }

    /// The name of the filesystem.
    pub fn filesystem_name(&self) -> (name: &'static str)
        ensures
            name@ == "XXDP"@,
    {
        "XXDP"
    }

    /// The device that holds the volume.
    pub fn block_device(&self) -> (dev: &B)
        ensures
            *dev == self.image,
    {
        &self.image
    }
}

/// What giving the file named `src` the name `dest` answers, and the
/// volume and the sectors afterwards: nothing is done where the names are
/// the same; a file named `dest` is deleted first.
pub open spec fn move_outcome(
    v: VolumeView,
    contents: Seq<SectorState>,
    size: int,
    src: Seq<char>,
    dest: Seq<char>,
) -> (Result<(), Error>, VolumeView, Seq<SectorState>) {
    if src == dest {
        (Ok(()), v, contents)
    } else if named_slot(v.ufd, src, 0) is None {
        (Err(Error::NotFound), v, contents)
    } else if named_slot(v.ufd, dest, 0) is Some {
        let d = delete_outcome(v, contents, size, dest);
        match d.0 {
            Err(e) => d,
            Ok(_) => rename_outcome(d.1, d.2, size, src, dest),
        }
    } else {
        rename_outcome(v, contents, size, src, dest)
    }
}

/// The first slot from slot `from` on that holds a file named `name`.
pub open spec fn named_slot(ufd: Seq<EntryView>, name: Seq<char>, from: int) -> Option<int>
    decreases ufd.len() - from,
{
    if from < 0 || from >= ufd.len() {
        None
    } else if ufd[from].name == Some(name) {
        Some(from)
    } else {
        named_slot(ufd, name, from + 1)
    }
}

pub proof fn lemma_named_slot(ufd: Seq<EntryView>, name: Seq<char>, from: int)
    requires
        0 <= from,
    ensures
        named_slot(ufd, name, from) matches Some(i) ==> from <= i < ufd.len() && ufd[i].name == Some(name),
    decreases ufd.len() - from,
{
    if from < ufd.len() && ufd[from].name != Some(name) {
        lemma_named_slot(ufd, name, from + 1);
    }
}

/// The slots in their order: all of them, or those that hold a file.
pub open spec fn listing(ufd: Seq<EntryView>, files_only: bool) -> Seq<EntryView>
    decreases ufd.len(),
{
    if ufd.len() == 0 {
        Seq::empty()
    } else if !files_only || ufd.last().name is Some {
        listing(ufd.drop_last(), files_only).push(ufd.last())
    } else {
        listing(ufd.drop_last(), files_only)
    }
}

/// Flags that are clear.
pub open spec fn clear_flags(bits: Seq<bool>) -> int
    decreases bits.len(),
{
    if bits.len() == 0 {
        0
    } else {
        clear_flags(bits.drop_last()) + (if bits.last() { 0int } else { 1int })
    }
}

/// What the blocks of a chain hold after their links, one after the other.
pub open spec fn payload(list: Seq<(u16, Seq<u8>)>) -> Seq<u8>
    decreases list.len(),
{
    if list.len() == 0 {
        Seq::empty()
    } else {
        payload(list.drop_last()) + (if list.last().1.len() > 2 {
            list.last().1.subrange(2, list.last().1.len() as int)
        } else {
            Seq::empty()
        })
    }
}

/// What reading the first file named `name` gives.
pub open spec fn read_file_outcome(v: VolumeView, contents: Seq<SectorState>, size: int, name: Seq<char>) -> SectorState {
    match named_slot(v.ufd, name, 0) {
        None => Err(Error::NotFound),
        Some(i) => match chain_from(contents, size, v.ufd[i].first_block as u16) {
            Err(e) => Err(e),
            Ok(list) => Ok(payload(list)),
        },
    }
}

/// What clearing the flags of the first `k` blocks of `blocks` answers, and
/// the flags afterwards; a block that has no flag is refused.
pub open spec fn cleared(bits: Seq<bool>, blocks: Seq<u16>, k: int) -> (Result<(), Error>, Seq<bool>)
    decreases k,
{
    if k <= 0 {
        (Ok(()), bits)
    } else {
        let before = cleared(bits, blocks, k - 1);
        match before.0 {
            Err(e) => before,
            Ok(_) => if blocks[k - 1] >= before.1.len() {
                (Err(Error::Format), before.1)
            } else {
                (Ok(()), before.1.update(blocks[k - 1] as int, false))
            },
        }
    }
}

pub proof fn lemma_cleared_error(bits: Seq<bool>, blocks: Seq<u16>, k: int, n: int)
    requires
        0 <= k <= n,
        cleared(bits, blocks, k).0 is Err,
    ensures
        cleared(bits, blocks, n) == cleared(bits, blocks, k),
    decreases n - k,
{
    if k < n {
        lemma_cleared_error(bits, blocks, k, n - 1);
    }
}

/// What deleting `name` answers, and the volume and the sectors
/// afterwards.
pub open spec fn delete_outcome(v: VolumeView, contents: Seq<SectorState>, size: int, name: Seq<char>) -> (
    Result<(), Error>,
    VolumeView,
    Seq<SectorState>,
) {
    match named_slot(v.ufd, name, 0) {
        None => (Err(Error::NotFound), v, contents),
        Some(i) => match chain_from(contents, size, v.ufd[i].first_block as u16) {
            Err(e) => (Err(e), v, contents),
            Ok(list) => {
                let c = cleared(v.bitmap, chain_blocks(list), list.len() as int);
                match c.0 {
                    Err(e) => (Err(e), VolumeView { bitmap: c.1, ..v }, contents),
                    Ok(_) => {
                        let v1 = VolumeView {
                            bitmap: c.1,
                            ufd: v.ufd.update(i, EntryView { name: None, ..v.ufd[i] }),
                            ..v
                        };
                        persisted(v1, contents, size)
                    },
                }
            },
        }
    }
}

/// What writing the directory and then the bitmap answers, with the volume
/// and the sectors afterwards.
pub open spec fn persisted(v: VolumeView, contents: Seq<SectorState>, size: int) -> (
    Result<(), Error>,
    VolumeView,
    Seq<SectorState>,
) {
    let wu = ufd_written(v, contents, size);
    match wu.0 {
        Err(e) => (Err(e), v, wu.1),
        Ok(_) => {
            let wb = bitmap_written(v, wu.1, size);
            (wb.0, v, wb.1)
        },
    }
}

/// What giving the first file named `src` the name `dest` answers, and the
/// volume and the sectors afterwards.
pub open spec fn rename_outcome(
    v: VolumeView,
    contents: Seq<SectorState>,
    size: int,
    src: Seq<char>,
    dest: Seq<char>,
) -> (Result<(), Error>, VolumeView, Seq<SectorState>) {
    match name_words(Some(dest)) {
        Err(e) => (Err(e), v, contents),
        Ok(_) => match named_slot(v.ufd, src, 0) {
            None => (Err(Error::NotFound), v, contents),
            Some(i) => persisted(
                VolumeView { ufd: v.ufd.update(i, EntryView { name: Some(dest), ..v.ufd[i] }), ..v },
                contents,
                size,
            ),
        },
    }
}

/// Blocks that hold `bytes` bytes, 510 to a block.
pub open spec fn blocks_for(bytes: int) -> int {
    (bytes + 509) / 510
}

/// The entry of a file named `name`, made on `date`, that lies in the
/// blocks `list`. A file of no blocks names block 0 as its first and last.
pub open spec fn file_entry(name: Seq<char>, date: Date, list: Seq<u16>, blocks: usize) -> EntryView {
    EntryView {
        name: Some(name),
        date: Some(date),
        first_block: if list.len() > 0 { list[0] as usize } else { 0 },
        length: blocks,
        last_block: if list.len() > 0 { list.last() as usize } else { 0 },
    }
}

/// What writing a file on the clock's day gives: the outcome of the write
/// for some day, or, where the clock shows no day, the error for a date out
/// of range with nothing changed.
pub open spec fn written_today(
    v: VolumeView,
    contents: Seq<SectorState>,
    size: int,
    name: Seq<char>,
    data: Seq<u8>,
    r: Result<(), Error>,
    after: VolumeView,
    contents_after: Seq<SectorState>,
) -> bool {
    ||| r == Err::<(), Error>(Error::DateOutOfRange) && after == v && contents_after == contents
    ||| exists|date: Date|
        date.wf() && (r, after, contents_after) == #[trigger] write_file_outcome(v, contents, size, name, data, date)
}

/// What making a file named `name` that holds `data` answers, and the
/// volume and the sectors afterwards: a file of that name is deleted, a
/// slot and the blocks are taken, the directory and the bitmap are written,
/// and then the chain of the file.
pub open spec fn write_file_outcome(
    v: VolumeView,
    contents: Seq<SectorState>,
    size: int,
    name: Seq<char>,
    data: Seq<u8>,
    date: Date,
) -> (Result<(), Error>, VolumeView, Seq<SectorState>) {
    match name_words(Some(name)) {
        Err(e) => (Err(e), v, contents),
        Ok(_) => {
            let d = delete_outcome(v, contents, size, name);
            let s = slot_outcome(d.1, d.2, size);
            match s.0 {
                Err(e) => (Err(e), s.1, s.2),
                Ok(slot) => {
                    let blocks = blocks_for(data.len() as int);
                    if blocks > 65535 {
                        (Err(Error::NoSpace), s.1, s.2)
                    } else {
                        let a = allocated(s.1.bitmap, blocks);
                        match a.0 {
                            Err(e) => (Err(e), VolumeView { bitmap: a.1, ..s.1 }, s.2),
                            Ok(list) => {
                                let v2 = VolumeView {
                                    bitmap: a.1,
                                    ufd: s.1.ufd.update(slot, file_entry(name, date, list, blocks as usize)),
                                    ..s.1
                                };
                                let p = persisted(v2, s.2, size);
                                match p.0 {
                                    Err(e) => p,
                                    Ok(_) => {
                                        let wc = chain_written(p.2, size, list, data, list.len() as int);
                                        (wc.0, v2, wc.1)
                                    },
                                }
                            },
                        }
                    }
                },
            }
        },
    }
}

/// The volume that is made on a device of `blocks` blocks: the master file
/// directory in blocks 1 and 2, then the blocks of the user file
/// directory, one for every 28 entries of one entry for every four blocks,
/// then the blocks of the bitmap, one for every 960 blocks; all slots
/// free, and these blocks and block 0 marked used.
pub open spec fn formatted(blocks: int) -> VolumeView {
    let bitmap_blocks = round_up_spec(blocks, 960) / 960;
    let ufd_entries = round_up_spec(blocks / 4, 28);
    let ufd_blocks = ufd_entries / 28;
    let first_free = 3 + ufd_blocks + bitmap_blocks;
    VolumeView {
        mfd: MfdView::VariantOne(
            MfdOneView {
                mfd2_block: 2,
                interleave_factor: 1,
                bitmap_block: (3 + ufd_blocks) as u16,
                bitmap_pointer: numbers(3 + ufd_blocks, first_free),
                ufd_block: 3,
            },
        ),
        ufd: free_entries(ufd_entries),
        ufd_block_list: numbers(3, 3 + ufd_blocks),
        bitmap: Seq::new(blocks as nat, |j: int| j < first_free),
        bitmap_block_list: numbers(3 + ufd_blocks, first_free),
    }
}

/// What making a new volume gives: the volume and the sectors afterwards.
/// The directory, the bitmap and the master file directory are written, in
/// that order. A device of more than 65535 blocks, and one too small for
/// these blocks, is refused.
pub open spec fn mkfs_outcome(contents: Seq<SectorState>, size: int) -> Result<(VolumeView, Seq<SectorState>), Error> {
    let blocks = device_blocks(contents, size);
    let v = formatted(blocks);
    if blocks > volume_limit() {
        Err(Error::OutOfRange)
    } else if v.bitmap_block_list.len() + v.ufd_block_list.len() + 3 > blocks {
        Err(Error::NoSpace)
    } else {
        let wu = ufd_written(v, contents, size);
        match wu.0 {
            Err(e) => Err(e),
            Ok(_) => {
                let wb = bitmap_written(v, wu.1, size);
                match wb.0 {
                    Err(e) => Err(e),
                    Ok(_) => {
                        let wm = mfd_written(v, wb.1, size);
                        match wm.0 {
                            Err(e) => Err(e),
                            Ok(_) => Ok((v, wm.1)),
                        }
                    },
                }
            },
        }
    }
}

/// The runs as pairs of their first block and the block after their last.
pub open spec fn span_views(spans: Seq<Range<u16>>) -> Seq<(int, int)> {
    Seq::new(spans.len(), |i: int| (spans[i].start as int, spans[i].end as int))
}

/// The run that is open, if one is.
pub open spec fn open_view(start: Option<u16>) -> Option<int> {
    match start {
        Some(s) => Some(s as int),
        None => None,
    }
}

/// The runs of clear flags from flag `i` on, `open` being the begin of a
/// run that flag `i` goes on with.
pub open spec fn spans_from(bits: Seq<bool>, i: int, open: Option<int>) -> Seq<(int, int)>
    decreases bits.len() - i,
{
    if i < 0 || i >= bits.len() {
        match open {
            Some(s) => seq![(s, bits.len() as int)],
            None => Seq::empty(),
        }
    } else {
        match open {
            None => if !bits[i] {
                spans_from(bits, i + 1, Some(i))
            } else {
                spans_from(bits, i + 1, None)
            },
            Some(s) => if bits[i] {
                seq![(s, i)] + spans_from(bits, i + 1, None)
            } else {
                spans_from(bits, i + 1, open)
            },
        }
    }
}

/// The runs of free blocks: the longest stretches of clear flags, in their
/// order.
pub open spec fn free_spans(bits: Seq<bool>) -> Seq<(int, int)> {
    spans_from(bits, 0, None)
}

/// Each run has a block, begins at a block, and ends within `len` blocks.
pub open spec fn spans_valid(spans: Seq<(int, int)>, len: int) -> bool {
    forall|i: int| 0 <= i < spans.len() ==> 0 <= (#[trigger] spans[i]).0 < spans[i].1 <= len
}

pub proof fn lemma_spans_from_valid(bits: Seq<bool>, i: int, open: Option<int>)
    requires
        0 <= i <= bits.len(),
        open matches Some(s) ==> 0 <= s < i,
    ensures
        spans_valid(spans_from(bits, i, open), bits.len() as int),
    decreases bits.len() - i,
{
    if i < bits.len() {
        match open {
            None => {
                if !bits[i] {
                    lemma_spans_from_valid(bits, i + 1, Some(i));
                } else {
                    lemma_spans_from_valid(bits, i + 1, None);
                }
            },
            Some(s) => {
                if bits[i] {
                    lemma_spans_from_valid(bits, i + 1, None);
                    let rest = spans_from(bits, i + 1, None);
                    let all = seq![(s, i)] + rest;
                    assert forall|k: int| 0 <= k < all.len() implies 0 <= (#[trigger] all[k]).0 < all[k].1 <= bits.len() by {
                        if k > 0 {
                            assert(all[k] == rest[k - 1]);
                        }
                    }
                } else {
                    lemma_spans_from_valid(bits, i + 1, open);
                }
            },
        }
    }
}

pub proof fn lemma_free_spans_valid(bits: Seq<bool>)
    ensures
        spans_valid(free_spans(bits), bits.len() as int),
{
    lemma_spans_from_valid(bits, 0, None);
}

/// What a run counts for when `want` blocks are asked for: more than any
/// other if it has just that many blocks, else its length.
pub open spec fn span_key(span: (int, int), want: int) -> int {
    if span.1 - span.0 == want { 65535 } else { span.1 - span.0 }
}

/// The run among the first `k` that counts for most, the last of those
/// that count alike.
pub open spec fn best_of(spans: Seq<(int, int)>, want: int, k: int) -> int
    decreases k,
{
    if k <= 1 {
        0
    } else {
        let before = best_of(spans, want, k - 1);
        if span_key(spans[k - 1], want) >= span_key(spans[before], want) { k - 1 } else { before }
    }
}

pub proof fn lemma_best_of_range(spans: Seq<(int, int)>, want: int, k: int)
    requires
        1 <= k <= spans.len(),
    ensures
        0 <= best_of(spans, want, k) < k,
    decreases k,
{
    if k > 1 {
        lemma_best_of_range(spans, want, k - 1);
    }
}

/// The flags with those from `from` up to `to` set.
pub open spec fn marked(bits: Seq<bool>, from: int, to: int) -> Seq<bool> {
    Seq::new(bits.len(), |i: int| if from <= i < to { true } else { bits[i] })
}

/// The block numbers from `from` up to `to`.
pub open spec fn numbers(from: int, to: int) -> Seq<u16> {
    Seq::new((to - from) as nat, |i: int| (from + i) as u16)
}

/// What taking `count` more blocks from the runs `spans` answers when
/// `want` were asked for and `got` are taken already: the blocks taken, in
/// the order of taking, or that there is no room; and the flags afterwards.
/// Blocks taken before the room ran out stay marked.
pub open spec fn taken(bits: Seq<bool>, spans: Seq<(int, int)>, want: int, count: int, got: Seq<u16>) -> (
    Result<Seq<u16>, Error>,
    Seq<bool>,
)
    decreases spans.len(),
{
    if count <= 0 {
        (Ok(got), bits)
    } else if spans.len() == 0 {
        (Err(Error::NoSpace), bits)
    } else {
        let best = best_of(spans, want, spans.len() as int);
        let span = spans[best];
        let take = if span.1 - span.0 < count { span.1 - span.0 } else { count };
        if !(0 <= best < spans.len()) {
            (Err(Error::NoSpace), bits)
        } else {
            taken(
                marked(bits, span.0, span.0 + take),
                spans.remove(best),
                want,
                count - take,
                got + numbers(span.0, span.0 + take),
            )
        }
    }
}

/// What taking `want` free blocks answers, and the flags afterwards.
pub open spec fn allocated(bits: Seq<bool>, want: int) -> (Result<Seq<u16>, Error>, Seq<bool>) {
    taken(bits, free_spans(bits), want, want, Seq::empty())
}

/// `n` slots that hold no file.
pub open spec fn free_entries(n: int) -> Seq<EntryView> {
    Seq::new(n as nat, |i: int| super::free_entry())
}

/// The first slot from slot `from` on that holds no file.
pub open spec fn first_free(ufd: Seq<EntryView>, from: int) -> Option<int>
    decreases ufd.len() - from,
{
    if from < 0 || from >= ufd.len() {
        None
    } else if ufd[from].name is None {
        Some(from)
    } else {
        first_free(ufd, from + 1)
    }
}

/// What asking for a free slot answers, and the volume and the sectors
/// afterwards. Where all slots hold files a free block is taken for the
/// directory, 28 free slots are added, the first of which is the answer,
/// and the bitmap and the directory are written.
pub open spec fn slot_outcome(v: VolumeView, contents: Seq<SectorState>, size: int) -> (
    Result<int, Error>,
    VolumeView,
    Seq<SectorState>,
) {
    match first_free(v.ufd, 0) {
        Some(i) => (Ok(i), v, contents),
        None => {
            let a = allocated(v.bitmap, 1);
            match a.0 {
                Err(e) => (Err(e), VolumeView { bitmap: a.1, ..v }, contents),
                Ok(list) => {
                    let v1 = VolumeView {
                        bitmap: a.1,
                        ufd_block_list: v.ufd_block_list.push(list[0]),
                        ufd: v.ufd + free_entries(28),
                        ..v
                    };
                    let wb = bitmap_written(v1, contents, size);
                    match wb.0 {
                        Err(e) => (Err(e), v1, wb.1),
                        Ok(_) => {
                            let wu = ufd_written(v1, wb.1, size);
                            (
                                match wu.0 {
                                    Ok(_) => Ok(v.ufd.len() as int),
                                    Err(e) => Err(e),
                                },
                                v1,
                                wu.1,
                            )
                        },
                    }
                },
            }
        },
    }
}

/// The place of the run that counts for most when `want` blocks are asked
/// for.
fn best_span(spans: &Vec<Range<u16>>, want: u16) -> (best: usize)
    requires
        spans@.len() >= 1,
        spans_valid(span_views(spans@), 65535),
    ensures
        best == best_of(span_views(spans@), want as int, spans@.len() as int),
        best < spans@.len(),
{
    let ghost views = span_views(spans@);
    let mut best: usize = 0;
    let mut k: usize = 1;
    while k < spans.len()
        invariant
            1 <= k <= spans@.len(),
            views == span_views(spans@),
            spans_valid(views, 65535),
            best == best_of(views, want as int, k as int),
            best < k,
        decreases spans@.len() - k,
    {
        proof {
            assert(0 <= views[k as int].0 < views[k as int].1 <= 65535);
            assert(0 <= views[best as int].0 < views[best as int].1 <= 65535);
        }
        let here = spans[k].end - spans[k].start;
        let there = spans[best].end - spans[best].start;
        let here_key: u16 = if here == want { 65535 } else { here };
        let there_key: u16 = if there == want { 65535 } else { there };
        if here_key >= there_key {
            best = k;
        }
        k += 1;
    }
    best
}

/// Marks the `take` blocks from `start` on used and adds them to `list`.
fn take_blocks(bits: &mut Vec<bool>, list: &mut Vec<u16>, start: u16, take: u16)
    requires
        start + take <= old(bits)@.len(),
        start + take <= u16::MAX,
    ensures
        final(bits)@ == marked(old(bits)@, start as int, start + take),
        final(list)@ == old(list)@ + numbers(start as int, start + take),
{
    let mut i: u16 = 0;
    assert(bits@ =~= marked(old(bits)@, start as int, start + 0));
    assert(list@ =~= old(list)@ + numbers(start as int, start + 0));
    while i < take
        invariant
            i <= take,
            start + take <= u16::MAX,
            start + take <= old(bits)@.len(),
            bits@ == marked(old(bits)@, start as int, start + i),
            list@ == old(list)@ + numbers(start as int, start + i),
        decreases take - i,
    {
        list.push(start + i);
        bits[(start + i) as usize] = true;
        i += 1;
        assert(bits@ =~= marked(old(bits)@, start as int, start + i));
        assert(list@ =~= old(list)@ + numbers(start as int, start + i));
    }
}

/// Where in `data` the part for block `k` of a chain begins.
pub open spec fn chunk_start(data: Seq<u8>, k: int) -> int {
    if k * 510 <= data.len() { k * 510 } else { data.len() as int }
}

/// The 512 bytes of block `k` of a chain that holds `data`: the number of
/// the next block, or 0 in the last one, then up to 510 bytes of `data`,
/// filled up with zeros.
pub open spec fn chain_block(list: Seq<u16>, data: Seq<u8>, k: int) -> Seq<u8> {
    let next = if k + 1 < list.len() { list[k + 1] } else { 0u16 };
    let part = data.subrange(chunk_start(data, k), chunk_start(data, k + 1));
    word_bytes(next) + part + zeros(510 - part.len())
}

/// What writing `data` to the first `k` blocks of the chain `list` answers,
/// and what the sectors hold afterwards.
pub open spec fn chain_written(contents: Seq<SectorState>, size: int, list: Seq<u16>, data: Seq<u8>, k: int) -> (
    Result<(), Error>,
    Seq<SectorState>,
)
    decreases k,
{
    if k <= 0 {
        (Ok(()), contents)
    } else {
        let before = chain_written(contents, size, list, data, k - 1);
        match before.0 {
            Err(e) => before,
            Ok(_) => write_blocks_spec(before.1, size, list[k - 1] as int, 1, chain_block(list, data, k - 1)),
        }
    }
}

pub proof fn lemma_chain_written_error(
    contents: Seq<SectorState>,
    size: int,
    list: Seq<u16>,
    data: Seq<u8>,
    k: int,
    n: int,
)
    requires
        0 <= k <= n,
        chain_written(contents, size, list, data, k).0 is Err,
    ensures
        chain_written(contents, size, list, data, n) == chain_written(contents, size, list, data, k),
    decreases n - k,
{
    if k < n {
        lemma_chain_written_error(contents, size, list, data, k, n - 1);
    }
}

/// The six zero bytes that end a block of the directory, before entry `i`
/// where a new block begins with it.
pub open spec fn group_gap(i: int) -> Seq<u8> {
    if i > 0 && i % 28 == 0 { zeros(6) } else { Seq::empty() }
}

/// The bytes of the entries, 28 to a block of 510 bytes, without what fills
/// up the last block; or the error of the first entry that cannot be
/// written.
pub open spec fn packed(entries: Seq<EntryView>) -> Result<Seq<u8>, Error>
    decreases entries.len(),
{
    if entries.len() == 0 {
        Ok(Seq::empty())
    } else {
        match packed(entries.drop_last()) {
            Err(e) => Err(e),
            Ok(head) => match entry_bytes(entries.last()) {
                Err(e) => Err(e),
                Ok(last) => Ok(head + group_gap(entries.len() - 1) + last),
            },
        }
    }
}

/// The bytes of the user file directory as its chain holds them: the
/// entries, 28 to a block, each block filled up with zeros to 510 bytes.
pub open spec fn ufd_stream(entries: Seq<EntryView>) -> Result<Seq<u8>, Error> {
    match packed(entries) {
        Err(e) => Err(e),
        Ok(bytes) => if entries.len() == 0 {
            Ok(bytes)
        } else {
            Ok(bytes + zeros(510 - bytes.len() % 510))
        },
    }
}

pub proof fn lemma_packed_error(entries: Seq<EntryView>, k: int)
    requires
        0 <= k <= entries.len(),
        packed(entries.subrange(0, k)) is Err,
    ensures
        packed(entries) == packed(entries.subrange(0, k)),
    decreases entries.len() - k,
{
    if k < entries.len() {
        assert(entries.subrange(0, k + 1).drop_last() =~= entries.subrange(0, k));
        lemma_packed_error(entries, k + 1);
    } else {
        assert(entries.subrange(0, k) =~= entries);
    }
}

/// What writing the user file directory answers, and what the sectors hold
/// afterwards.
pub open spec fn ufd_written(v: VolumeView, contents: Seq<SectorState>, size: int) -> (
    Result<(), Error>,
    Seq<SectorState>,
) {
    match ufd_stream(v.ufd) {
        Err(e) => (Err(e), contents),
        Ok(data) => chain_written(contents, size, v.ufd_block_list, data, v.ufd_block_list.len() as int),
    }
}

/// The value of the `n` flags from `from` on as bits of a word, the first
/// the lowest; flags past the end count as clear.
pub open spec fn bits_value(bits: Seq<bool>, from: int, n: nat) -> int
    decreases n,
{
    if n == 0 {
        0
    } else {
        bits_value(bits, from, (n - 1) as nat) + (if from + n - 1 < bits.len() && bits[from + n - 1] {
            pow2((n - 1) as nat)
        } else {
            0
        })
    }
}

/// The words of map `c` of the bitmap: the flags from `960 * c` on, sixteen
/// to a word, as many words as the flags that are left need, 60 at most.
pub open spec fn map_words(bits: Seq<bool>, c: int) -> Seq<u16> {
    let left = bits.len() - 960 * c;
    let count = if left >= 960 { 60 } else { (left + 15) / 16 };
    Seq::new(count as nat, |j: int| bits_value(bits, 960 * c + 16 * j, 16) as u16)
}

/// The bytes of the first `c` maps of the bitmap as its chain holds them.
pub open spec fn bitmap_stream(bits: Seq<bool>, first: u16, c: int) -> Seq<u8>
    decreases c,
{
    if c <= 0 {
        Seq::empty()
    } else {
        bitmap_stream(bits, first, c - 1) + bitmap_block_bytes((c - 1) as u16, first, map_words(bits, c - 1))
    }
}

/// Maps that the bitmap takes: one for every 960 flags.
pub open spec fn map_count(bits: Seq<bool>) -> int {
    (bits.len() as int + 959) / 960
}

/// What writing the bitmap answers, and what the sectors hold afterwards.
pub open spec fn bitmap_written(v: VolumeView, contents: Seq<SectorState>, size: int) -> (
    Result<(), Error>,
    Seq<SectorState>,
) {
    chain_written(
        contents,
        size,
        v.bitmap_block_list,
        bitmap_stream(v.bitmap, v.bitmap_block_list[0], map_count(v.bitmap)),
        v.bitmap_block_list.len() as int,
    )
}

/// What writing the master file directory answers, and what the sectors
/// hold afterwards: the first form goes to block 1 and to the block that it
/// names; the second form is not written.
pub open spec fn mfd_written(v: VolumeView, contents: Seq<SectorState>, size: int) -> (
    Result<(), Error>,
    Seq<SectorState>,
) {
    match v.mfd {
        MfdView::VariantTwo(_) => (Err(Error::Unsupported), contents),
        MfdView::VariantOne(m) => {
            let w1 = write_blocks_spec(contents, size, 1, 1, mfd_bytes(v.mfd).0);
            match w1.0 {
                Err(e) => w1,
                Ok(_) => write_blocks_spec(w1.1, size, m.mfd2_block as int, 1, mfd_bytes(v.mfd).1),
            }
        },
    }
}

/// The word of the sixteen flags from `from` on.
fn word_of_bits(bits: &Vec<bool>, from: usize) -> (w: u16)
    requires
        from + 16 <= usize::MAX,
    ensures
        w == bits_value(bits@, from as int, 16),
{
    let mut value: u32 = 0;
    let mut mask: u32 = 1;
    let mut n: usize = 0;
    while n < 16
        invariant
            n <= 16,
            from + 16 <= usize::MAX,
            mask == pow2(n as nat),
            value == bits_value(bits@, from as int, n as nat),
            value < mask,
        decreases 16 - n,
    {
        proof {
            lemma_pow2_bound(n as nat);
        }
        if from + n < bits.len() && bits[from + n] {
            value = value + mask;
        }
        mask = mask * 2;
        n += 1;
    }
    proof {
        lemma_pow2_values();
    }
    value as u16
}

/// The bytes of the bitmap as its chain holds them.
fn bitmap_bytes(bits: &Vec<bool>, first: u16) -> (out: Vec<u8>)
    requires
        bits@.len() <= volume_limit(),
    ensures
        out@ == bitmap_stream(bits@, first, map_count(bits@)),
{
    let len = bits.len();
    let maps = (len + 959) / 960;
    let mut out: Vec<u8> = Vec::new();
    let mut c: usize = 0;
    assert(out@ =~= bitmap_stream(bits@, first, 0));
    while c < maps
        invariant
            len == bits@.len(),
            len <= 65535,
            maps == map_count(bits@),
            c <= maps,
            out@ == bitmap_stream(bits@, first, c as int),
        decreases maps - c,
    {
        let left = len - 960 * c;
        let count: usize = if left >= 960 { 60 } else { (left + 15) / 16 };
        let mut words: Vec<u16> = Vec::new();
        let mut j: usize = 0;
        while j < count
            invariant
                len == bits@.len(),
                len <= 65535,
                c < maps,
                maps == map_count(bits@),
                count <= 60,
                j <= count,
                words@.len() == j,
                forall|k: int| 0 <= k < j ==> words@[k] == bits_value(bits@, 960 * c + 16 * k, 16) as u16,
            decreases count - j,
        {
            words.push(word_of_bits(bits, 960 * c + 16 * j));
            j += 1;
        }
        proof {
            assert(words@ =~= map_words(bits@, c as int));
        }
        let block = BitmapBlock { map_number: c as u16, first_bitmap: first, entries: words };
        let mut bytes = block.repr();
        out.append(&mut bytes);
        c += 1;
    }
    out
}

pub proof fn lemma_chain_entries_error(list: Seq<(u16, Seq<u8>)>, k: int)
    requires
        0 <= k <= list.len(),
        chain_entries(list.subrange(0, k)) is Err,
    ensures
        chain_entries(list) == chain_entries(list.subrange(0, k)),
    decreases list.len() - k,
{
    if k < list.len() {
        assert(list.subrange(0, k + 1).drop_last() =~= list.subrange(0, k));
        lemma_chain_entries_error(list, k + 1);
    } else {
        assert(list.subrange(0, k) =~= list);
    }
}

pub proof fn lemma_chain_bits_error(list: Seq<(u16, Seq<u8>)>, k: int)
    requires
        0 <= k <= list.len(),
        chain_bits(list.subrange(0, k)) is Err,
    ensures
        chain_bits(list) == chain_bits(list.subrange(0, k)),
    decreases list.len() - k,
{
    if k < list.len() {
        assert(list.subrange(0, k + 1).drop_last() =~= list.subrange(0, k));
        lemma_chain_bits_error(list, k + 1);
    } else {
        assert(list.subrange(0, k) =~= list);
    }
}

/// Appends the sixteen flags of each word, the lowest bit first.
pub fn push_bits(bits: &mut Vec<bool>, words: &Vec<u16>)
    ensures
        final(bits)@ == old(bits)@ + words_bits(words@),
{
    let n = words.len();
    let mut i: usize = 0;
    assert(bits@ =~= old(bits)@ + words_bits(words@).subrange(0, 0));
    while i < n
        invariant
            n == words@.len(),
            i <= n,
            bits@ == old(bits)@ + words_bits(words@).subrange(0, 16 * i),
        decreases n - i,
    {
        let word = words[i] as u32;
        let mut mask: u32 = 1;
        let mut bit: usize = 0;
        while bit < 16
            invariant
                n == words@.len(),
                i < n,
                word == words@[i as int],
                bit <= 16,
                mask == pow2(bit as nat),
                mask <= 65536,
                bits@ == old(bits)@ + words_bits(words@).subrange(0, 16 * i + bit),
            decreases 16 - bit,
        {
            proof {
                lemma_pow2_bound(bit as nat);
                assert(words_bits(words@)[16 * i + bit] == ((words@[(16 * i + bit) / 16] as int / pow2(
                    ((16 * i + bit) % 16) as nat,
                )) % 2 == 1));
                assert((16 * i + bit) / 16 == i && (16 * i + bit) % 16 == bit);
            }
            let flag = (word / mask) % 2 == 1;
            bits.push(flag);
            proof {
                assert(words_bits(words@).subrange(0, 16 * i + bit + 1) =~= words_bits(words@).subrange(
                    0,
                    16 * i + bit,
                ).push(flag));
                assert(bits@ =~= old(bits)@ + words_bits(words@).subrange(0, 16 * i + bit + 1));
            }
            mask = mask * 2;
            bit += 1;
        }
        i += 1;
    }
    assert(words_bits(words@).subrange(0, 16 * n) =~= words_bits(words@));
}

pub proof fn lemma_pow2_bound(n: nat)
    requires
        n <= 16,
    ensures
        1 <= pow2(n) <= 65536,
        n < 16 ==> pow2(n) <= 32768,
{
    lemma_pow2_values();
}

pub proof fn lemma_pow2_values()
    ensures
        pow2(0) == 1,
        pow2(1) == 2,
        pow2(2) == 4,
        pow2(3) == 8,
        pow2(4) == 16,
        pow2(5) == 32,
        pow2(6) == 64,
        pow2(7) == 128,
        pow2(8) == 256,
        pow2(9) == 512,
        pow2(10) == 1024,
        pow2(11) == 2048,
        pow2(12) == 4096,
        pow2(13) == 8192,
        pow2(14) == 16384,
        pow2(15) == 32768,
        pow2(16) == 65536,
{
    reveal_with_fuel(pow2, 18);
}

} // verus!
