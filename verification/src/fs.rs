use vstd::prelude::*;
use crate::block::{BlockDevice, SectorState};
use crate::date::Date;
use crate::error::Error;

pub mod rt11;
pub mod xxdp;

verus! {

/// A point in time: a day, or a day and the seconds since its midnight.
#[derive(Clone, Copy, Debug, PartialEq, Eq, Structural)]
pub enum Timestamp {
    Date(Date),
    DateTime(Date, u32),
}

/// Bytes of `blocks` blocks, or the most that fits where that is too many.
pub open spec fn bytes_of_blocks(blocks: int) -> int {
    if blocks * 512 <= u64::MAX { blocks * 512 } else { u64::MAX as int }
}

/// The bytes of `blocks` blocks.
pub fn block_bytes(blocks: usize) -> (n: u64)
    ensures
        n == bytes_of_blocks(blocks as int),
{
    let wide = blocks as u128 * 512;
    if wide <= u64::MAX as u128 { wide as u64 } else { u64::MAX }
}

/// An entry of a directory, whatever the filesystem.
pub trait DirEntry {
    /// The name; a slot that holds no file has the name of no characters.
    spec fn name_spec(&self) -> Seq<char>;

    /// The entry stands for a file.
    spec fn is_file_spec(&self) -> bool;

    /// Blocks of the entry.
    spec fn blocks_spec(&self) -> int;

    /// The file must not be written.
    spec fn readonly_spec(&self) -> bool;

    /// The day the file was made, if one is known.
    spec fn created_spec(&self) -> Option<Date>;

    fn path(&self) -> (r: &str)
        ensures
            r@ == self.name_spec(),
    ;

    fn file_name(&self) -> (r: &str)
        ensures
            r@ == self.name_spec(),
    ;

    fn is_dir(&self) -> (b: bool)
        ensures
            !b,
    ;

    fn is_file(&self) -> (b: bool)
        ensures
            b == self.is_file_spec(),
    ;

    fn is_symlink(&self) -> (b: bool)
        ensures
            !b,
    ;

    /// Bytes of the entry: 512 for each block.
    fn len(&self) -> (n: u64)
        ensures
            n == bytes_of_blocks(self.blocks_spec()),
    ;

    /// Not kept by these filesystems.
    fn modified(&self) -> (r: Result<Timestamp, Error>)
        ensures
            r == Err::<Timestamp, Error>(Error::Unsupported),
    ;

    /// Not kept by these filesystems.
    fn accessed(&self) -> (r: Result<Timestamp, Error>)
        ensures
            r == Err::<Timestamp, Error>(Error::Unsupported),
    ;

    /// The day the file was made; an entry without a date has none.
    fn created(&self) -> (r: Result<Timestamp, Error>)
        ensures
            r == (match self.created_spec() {
                Some(d) => Ok::<Timestamp, Error>(Timestamp::Date(d)),
                None => Err::<Timestamp, Error>(Error::Format),
            }),
    ;

    fn blocks(&self) -> (n: u64)
        ensures
            n == self.blocks_spec(),
    ;

    fn readonly(&self) -> (b: bool)
        ensures
            b == self.readonly_spec(),
    ;
}

impl DirEntry for rt11::DirEntry {
    open spec fn name_spec(&self) -> Seq<char> {
        self.name@
    }

    open spec fn is_file_spec(&self) -> bool {
        self.kind == rt11::EntryKind::Permanent
    }

    open spec fn blocks_spec(&self) -> int {
        self.length as int
    }

    open spec fn readonly_spec(&self) -> bool {
        self.read_only
    }

    open spec fn created_spec(&self) -> Option<Date> {
        self.creation_date
    }

    fn path(&self) -> (r: &str) {
        self.name.as_str()
    }

    fn file_name(&self) -> (r: &str) {
        self.name.as_str()
    }

    fn is_dir(&self) -> (b: bool) {
        false
    }

    fn is_file(&self) -> (b: bool) {
        self.kind == rt11::EntryKind::Permanent
    }

    fn is_symlink(&self) -> (b: bool) {
        false
    }

    fn len(&self) -> (n: u64) {
        block_bytes(self.length)
    }

    fn modified(&self) -> (r: Result<Timestamp, Error>) {
        Err(Error::Unsupported)
    }

    fn accessed(&self) -> (r: Result<Timestamp, Error>) {
        Err(Error::Unsupported)
    }

    fn created(&self) -> (r: Result<Timestamp, Error>) {
        match self.creation_date {
            Some(d) => Ok(Timestamp::Date(d)),
            None => Err(Error::Format),
        }
    }

    fn blocks(&self) -> (n: u64) {
        self.length as u64
    }

    fn readonly(&self) -> (b: bool) {
        self.read_only
    }
}

/// The name of an optional name: no name is the name of no characters.
pub open spec fn name_or_empty(name: Option<String>) -> Seq<char> {
    match name {
        Some(n) => n@,
        None => Seq::empty(),
    }
}

impl DirEntry for xxdp::DirEntry {
    open spec fn name_spec(&self) -> Seq<char> {
        name_or_empty(self.name)
    }

    open spec fn is_file_spec(&self) -> bool {
        self.name is Some
    }

    open spec fn blocks_spec(&self) -> int {
        self.length as int
    }

    open spec fn readonly_spec(&self) -> bool {
        false
    }

    open spec fn created_spec(&self) -> Option<Date> {
        self.date
    }

    fn path(&self) -> (r: &str) {
        self.file_name()
    }

    fn file_name(&self) -> (r: &str) {
        match &self.name {
            Some(n) => n.as_str(),
            None => {
                proof {
                    reveal_strlit("");
                    assert(""@ =~= Seq::<char>::empty());
                }
                ""
            },
        }
    }

    fn is_dir(&self) -> (b: bool) {
        false
    }

    fn is_file(&self) -> (b: bool) {
        self.name.is_some()
    }

    fn is_symlink(&self) -> (b: bool) {
        false
    }

    fn len(&self) -> (n: u64) {
        block_bytes(self.length)
    }

    fn modified(&self) -> (r: Result<Timestamp, Error>) {
        Err(Error::Unsupported)
    }

    fn accessed(&self) -> (r: Result<Timestamp, Error>) {
        Err(Error::Unsupported)
    }

    fn created(&self) -> (r: Result<Timestamp, Error>) {
        match self.date {
            Some(d) => Ok(Timestamp::Date(d)),
            None => Err(Error::Format),
        }
    }

    fn blocks(&self) -> (n: u64) {
        self.length as u64
    }

    fn readonly(&self) -> (b: bool) {
        false
    }
}

/// What an operation on a volume answers, with the state and the sectors
/// of the device afterwards.
pub type Outcome<S> = (Result<(), Error>, S, Seq<SectorState>);

/// A volume, whatever the filesystem.
///
/// What a volume is at any time is its state, a mathematical value that
/// stands for what it keeps in memory, and the sectors of its device. Each
/// filesystem says what its operations make of the two; the contracts of
/// the methods say that they do just that.
pub trait FileSystem: Sized {
    type BlockDevice: BlockDevice;

    type Entry: DirEntry;

    /// What the volume keeps in memory, as a mathematical value.
    type State;

    /// The volume is consistent and can be worked on.
    spec fn wf(&self) -> bool;

    /// What the volume keeps in memory.
    spec fn state(&self) -> Self::State;

    /// The device that holds the volume.
    spec fn device(&self) -> Self::BlockDevice;

    /// A file named `name` exists.
    spec fn has_file(&self, name: Seq<char>) -> bool;

    /// Blocks that are free.
    spec fn free_spec(&self) -> int;

    /// Blocks that are in use.
    spec fn used_spec(&self) -> int;

    /// `list` is the directory of a volume in this state: all its entries,
    /// or those of its files only.
    spec fn lists(state: Self::State, files_only: bool, list: Seq<Self::Entry>) -> bool;

    /// `found` is what looking for a file named `name` gives on a volume in
    /// this state.
    spec fn finds(state: Self::State, name: Seq<char>, found: Option<Self::Entry>) -> bool;

    /// What reading the file named `name` gives.
    spec fn read_outcome(state: Self::State, sectors: Seq<SectorState>, size: int, name: Seq<char>) -> SectorState;

    /// What writing a file named `name` that holds `data` on the day `date`
    /// gives.
    spec fn write_outcome(
        state: Self::State,
        sectors: Seq<SectorState>,
        size: int,
        name: Seq<char>,
        data: Seq<u8>,
        date: Date,
    ) -> Outcome<Self::State>;

    /// What deleting the file named `name` gives.
    spec fn delete_outcome(state: Self::State, sectors: Seq<SectorState>, size: int, name: Seq<char>) -> Outcome<
        Self::State,
    >;

    /// What giving the file named `src` the name `dest` gives, whatever
    /// else is named `dest`.
    spec fn rename_outcome(
        state: Self::State,
        sectors: Seq<SectorState>,
        size: int,
        src: Seq<char>,
        dest: Seq<char>,
    ) -> Outcome<Self::State>;

    /// The name of the filesystem.
    spec fn filesystem_name_spec() -> Seq<char>;

    /// The name of the filesystem.
    fn filesystem_name(&self) -> (name: &'static str)
        ensures
            name@ == Self::filesystem_name_spec(),
    ;

    /// All entries of the directory; the path must be the root.
    fn dir_iter(&self, path: &str) -> (r: Result<Vec<Self::Entry>, Error>)
        ensures
            r is Ok <==> rt11::volume::is_root(path@),
            r matches Err(e) ==> e == Error::BadPath,
            r matches Ok(list) ==> Self::lists(self.state(), false, list@),
    ;

    /// The entries of the files; the path must be the root.
    fn read_dir(&self, path: &str) -> (r: Result<Vec<Self::Entry>, Error>)
        ensures
            r is Ok <==> rt11::volume::is_root(path@),
            r matches Err(e) ==> e == Error::BadPath,
            r matches Ok(list) ==> Self::lists(self.state(), true, list@),
    ;

    /// The entry of the file named `name`.
    fn stat(&self, name: &str) -> (r: Option<Self::Entry>)
        ensures
            r is Some <==> self.has_file(name@),
            r matches Some(e) ==> e.name_spec() == name@ && e.is_file_spec(),
            Self::finds(self.state(), name@, r),
    ;

    fn free_blocks(&self) -> (n: usize)
        requires
            self.wf(),
        ensures
            n == self.free_spec(),
    ;

    fn used_blocks(&self) -> (n: usize)
        requires
            self.wf(),
        ensures
            n == self.used_spec(),
    ;

    /// The bytes of the file named `name`, whole blocks.
    fn read_file(&self, name: &str) -> (r: Result<Vec<u8>, Error>)
        requires
            self.wf(),
        ensures
            crate::block::read_view(r) == Self::read_outcome(
                self.state(),
                self.device().contents(),
                self.device().sector_size_spec(),
                name@,
            ),
            !self.has_file(name@) ==> r == Err::<Vec<u8>, Error>(Error::NotFound),
    ;

    /// Makes a file named `name` that holds `contents`, dated with the
    /// clock's day, in place of a file of that name. Where the clock shows no
    /// day, nothing is changed and the answer is the error for a date out
    /// of range.
    fn write_file(&mut self, name: &str, contents: &[u8]) -> (r: Result<(), Error>)
        requires
            old(self).wf(),
        ensures
            final(self).wf(),
            final(self).device().sector_size_spec() == old(self).device().sector_size_spec(),
            (r == Err::<(), Error>(Error::DateOutOfRange) && final(self).state() == old(self).state()
                && final(self).device().contents() == old(self).device().contents()) || (exists|date: Date|
                date.wf() && (r, final(self).state(), final(self).device().contents()) == #[trigger] Self::write_outcome(
                    old(self).state(),
                    old(self).device().contents(),
                    old(self).device().sector_size_spec(),
                    name@,
                    contents@,
                    date,
                )),
    ;

    /// Deletes the file named `name`.
    fn delete(&mut self, name: &str) -> (r: Result<(), Error>)
        requires
            old(self).wf(),
        ensures
            final(self).wf(),
            final(self).device().sector_size_spec() == old(self).device().sector_size_spec(),
            (r, final(self).state(), final(self).device().contents()) == Self::delete_outcome(
                old(self).state(),
                old(self).device().contents(),
                old(self).device().sector_size_spec(),
                name@,
            ),
            !old(self).has_file(name@) ==> r == Err::<(), Error>(Error::NotFound),
    ;

    /// The device that holds the volume.
    fn block_device(&self) -> (dev: &Self::BlockDevice)
        ensures
            *dev == self.device(),
    ;

    /// Gives the file named `src` the name `dest`, in place of a file of
    /// that name: nothing is done where the names are the same, and nothing
    /// without a file named `src`; a file named `dest` is deleted first.
    fn rename(&mut self, src: &str, dest: &str) -> (r: Result<(), Error>)
        requires
            old(self).wf(),
        ensures
            final(self).wf(),
            final(self).device().sector_size_spec() == old(self).device().sector_size_spec(),
            (r, final(self).state(), final(self).device().contents()) == (if src@ == dest@ {
                (Ok::<(), Error>(()), old(self).state(), old(self).device().contents())
            } else if !old(self).has_file(src@) {
                (Err::<(), Error>(Error::NotFound), old(self).state(), old(self).device().contents())
            } else if old(self).has_file(dest@) {
                let d = Self::delete_outcome(
                    old(self).state(),
                    old(self).device().contents(),
                    old(self).device().sector_size_spec(),
                    dest@,
                );
                match d.0 {
                    Err(e) => d,
                    Ok(_) => Self::rename_outcome(d.1, d.2, old(self).device().sector_size_spec(), src@, dest@),
                }
            } else {
                Self::rename_outcome(
                    old(self).state(),
                    old(self).device().contents(),
                    old(self).device().sector_size_spec(),
                    src@,
                    dest@,
                )
            }),
    {
        if rt11::volume::same_text(src, dest) {
            return Ok(());
        }
        if self.stat(src).is_none() {
            return Err(Error::NotFound);
        }
        if self.stat(dest).is_some() {
            match self.delete(dest) {
                Ok(()) => {},
                Err(e) => { return Err(e); },
            }
        }
        self.rename_unchecked(src, dest)
    }

    /// Gives the file named `src` the name `dest`, whatever else is named
    /// `dest`.
    fn rename_unchecked(&mut self, src: &str, dest: &str) -> (r: Result<(), Error>)
        requires
            old(self).wf(),
        ensures
            final(self).wf(),
            final(self).device().sector_size_spec() == old(self).device().sector_size_spec(),
            (r, final(self).state(), final(self).device().contents()) == Self::rename_outcome(
                old(self).state(),
                old(self).device().contents(),
                old(self).device().sector_size_spec(),
                src@,
                dest@,
            ),
    ;
}

impl<B: BlockDevice> FileSystem for rt11::volume::RT11FS<B> {
    type BlockDevice = B;

    type Entry = rt11::DirEntry;

    /// The home block and the segments of the directory.
    type State = (rt11::HomeBlock, Seq<rt11::SegmentView>);

    open spec fn wf(&self) -> bool {
        rt11::volume::RT11FS::wf(self)
    }

    open spec fn state(&self) -> Self::State {
        (self.home, self.dir_view())
    }

    open spec fn device(&self) -> B {
        self.image
    }

    open spec fn has_file(&self, name: Seq<char>) -> bool {
        rt11::volume::file_named(self.dir_view(), name) is Some
    }

    open spec fn free_spec(&self) -> int {
        rt11::volume::dir_kind_length(self.dir_view(), rt11::EntryKind::Empty, true)
    }

    open spec fn used_spec(&self) -> int {
        rt11::volume::dir_kind_length(self.dir_view(), rt11::EntryKind::Empty, false)
    }

    open spec fn lists(state: Self::State, files_only: bool, list: Seq<rt11::DirEntry>) -> bool {
        rt11::entry_views(list) == rt11::volume::listing(
            state.1,
            if files_only {
                Some(rt11::EntryKind::Permanent)
            } else {
                None
            },
        )
    }

    open spec fn finds(state: Self::State, name: Seq<char>, found: Option<rt11::DirEntry>) -> bool {
        match found {
            Some(entry) => rt11::volume::file_named(state.1, name) matches Some((s, e)) && 0 <= s < state.1.len() && 0
                <= e < state.1[s].entries.len() && entry@ == state.1[s].entries[e],
            None => rt11::volume::file_named(state.1, name) is None,
        }
    }

    open spec fn read_outcome(state: Self::State, sectors: Seq<SectorState>, size: int, name: Seq<char>) -> SectorState {
        rt11::volume::read_file_outcome(state.1, sectors, size, name)
    }

    open spec fn write_outcome(
        state: Self::State,
        sectors: Seq<SectorState>,
        size: int,
        name: Seq<char>,
        data: Seq<u8>,
        date: Date,
    ) -> Outcome<Self::State> {
        let out = rt11::volume::write_file_outcome(state.1, state.0.directory_start_block, sectors, size, name, data, date);
        (out.0, (state.0, out.1), out.2)
    }

    open spec fn delete_outcome(state: Self::State, sectors: Seq<SectorState>, size: int, name: Seq<char>) -> Outcome<
        Self::State,
    > {
        let out = rt11::volume::delete_outcome(state.1, sectors, size, name);
        (out.0, (state.0, out.1), out.2)
    }

    open spec fn rename_outcome(
        state: Self::State,
        sectors: Seq<SectorState>,
        size: int,
        src: Seq<char>,
        dest: Seq<char>,
    ) -> Outcome<Self::State> {
        let out = rt11::volume::rename_outcome(state.1, sectors, size, src, dest);
        (out.0, (state.0, out.1), out.2)
    }

    open spec fn filesystem_name_spec() -> Seq<char> {
        "RT-11"@
    }

    fn filesystem_name(&self) -> (name: &'static str) {
        rt11::volume::RT11FS::filesystem_name(self)
    }

    fn dir_iter(&self, path: &str) -> (r: Result<Vec<rt11::DirEntry>, Error>) {
        rt11::volume::RT11FS::dir_iter(self, path)
    }

    fn read_dir(&self, path: &str) -> (r: Result<Vec<rt11::DirEntry>, Error>) {
        rt11::volume::RT11FS::read_dir(self, path)
    }

    fn stat(&self, name: &str) -> (r: Option<rt11::DirEntry>) {
        let r = rt11::volume::RT11FS::stat(self, name);
        proof {
            assert(self.state().1 == self.dir_view());
            if r is Some {
                let entry = r->0;
                assert(entry.name@ == name@);
                assert(entry.name_spec() == name@);
                assert(entry.is_file_spec());
            }
            assert(Self::finds(self.state(), name@, r));
        }
        r
    }

    fn free_blocks(&self) -> (n: usize) {
        rt11::volume::RT11FS::free_blocks(self)
    }

    fn used_blocks(&self) -> (n: usize) {
        rt11::volume::RT11FS::used_blocks(self)
    }

    fn read_file(&self, name: &str) -> (r: Result<Vec<u8>, Error>) {
        rt11::volume::RT11FS::read_file(self, name)
    }

    fn write_file(&mut self, name: &str, contents: &[u8]) -> (r: Result<(), Error>) {
        let r = rt11::volume::RT11FS::write_file(self, name, contents);
        proof {
            let sectors = old(self).image.contents();
            let size = old(self).image.sector_size_spec();
            if !(r == Err::<(), Error>(Error::DateOutOfRange) && self.dir_view() == old(self).dir_view()
                && self.image.contents() == sectors) {
                let date = choose|date: Date|
                    date.wf() && (r, self.dir_view(), self.image.contents())
                        == #[trigger] rt11::volume::write_file_outcome(
                        old(self).dir_view(),
                        old(self).home.directory_start_block,
                        sectors,
                        size,
                        name@,
                        contents@,
                        date,
                    );
                assert((r, self.state(), self.image.contents()) == Self::write_outcome(
                    old(self).state(),
                    sectors,
                    size,
                    name@,
                    contents@,
                    date,
                ));
            }
        }
        r
    }

    fn delete(&mut self, name: &str) -> (r: Result<(), Error>) {
        rt11::volume::RT11FS::delete(self, name)
    }

    fn block_device(&self) -> (dev: &B) {
        rt11::volume::RT11FS::block_device(self)
    }

    fn rename_unchecked(&mut self, src: &str, dest: &str) -> (r: Result<(), Error>) {
        rt11::volume::RT11FS::rename_unchecked(self, src, dest)
    }
}

impl<B: BlockDevice> FileSystem for xxdp::volume::XxdpFs<B> {
    type BlockDevice = B;

    type Entry = xxdp::DirEntry;

    /// The directory blocks, the bitmap and the entries.
    type State = xxdp::volume::VolumeView;

    open spec fn wf(&self) -> bool {
        xxdp::volume::XxdpFs::wf(self)
    }

    open spec fn state(&self) -> Self::State {
        self.view()
    }

    open spec fn device(&self) -> B {
        self.image
    }

    open spec fn has_file(&self, name: Seq<char>) -> bool {
        xxdp::volume::named_slot(self.view().ufd, name, 0) is Some
    }

    open spec fn free_spec(&self) -> int {
        xxdp::volume::clear_flags(self.bitmap@)
    }

    open spec fn used_spec(&self) -> int {
        self.bitmap@.len() - xxdp::volume::clear_flags(self.bitmap@)
    }

    open spec fn lists(state: Self::State, files_only: bool, list: Seq<xxdp::DirEntry>) -> bool {
        xxdp::volume::entry_views(list) == xxdp::volume::listing(state.ufd, files_only)
    }

    open spec fn finds(state: Self::State, name: Seq<char>, found: Option<xxdp::DirEntry>) -> bool {
        match found {
            Some(entry) => xxdp::volume::named_slot(state.ufd, name, 0) matches Some(i) && 0 <= i < state.ufd.len()
                && entry@ == state.ufd[i],
            None => xxdp::volume::named_slot(state.ufd, name, 0) is None,
        }
    }

    open spec fn read_outcome(state: Self::State, sectors: Seq<SectorState>, size: int, name: Seq<char>) -> SectorState {
        xxdp::volume::read_file_outcome(state, sectors, size, name)
    }

    open spec fn write_outcome(
        state: Self::State,
        sectors: Seq<SectorState>,
        size: int,
        name: Seq<char>,
        data: Seq<u8>,
        date: Date,
    ) -> Outcome<Self::State> {
        xxdp::volume::write_file_outcome(state, sectors, size, name, data, date)
    }

    open spec fn delete_outcome(state: Self::State, sectors: Seq<SectorState>, size: int, name: Seq<char>) -> Outcome<
        Self::State,
    > {
        xxdp::volume::delete_outcome(state, sectors, size, name)
    }

    open spec fn rename_outcome(
        state: Self::State,
        sectors: Seq<SectorState>,
        size: int,
        src: Seq<char>,
        dest: Seq<char>,
    ) -> Outcome<Self::State> {
        xxdp::volume::rename_outcome(state, sectors, size, src, dest)
    }

    open spec fn filesystem_name_spec() -> Seq<char> {
        "XXDP"@
    }

    fn filesystem_name(&self) -> (name: &'static str) {
        xxdp::volume::XxdpFs::filesystem_name(self)
    }

    fn dir_iter(&self, path: &str) -> (r: Result<Vec<xxdp::DirEntry>, Error>) {
        xxdp::volume::XxdpFs::dir_iter(self, path)
    }

    fn read_dir(&self, path: &str) -> (r: Result<Vec<xxdp::DirEntry>, Error>) {
        xxdp::volume::XxdpFs::read_dir(self, path)
    }

    fn stat(&self, name: &str) -> (r: Option<xxdp::DirEntry>) {
        let r = xxdp::volume::XxdpFs::stat(self, name);
        proof {
            xxdp::volume::lemma_named_slot(self.view().ufd, name@, 0);
            assert(self.state().ufd == self.view().ufd);
            if r is Some {
                let entry = r->0;
                let i = xxdp::volume::named_slot(self.view().ufd, name@, 0)->0;
                assert(entry@ == self.view().ufd[i]);
                assert(entry@.name == Some(name@));
                assert(entry.name_spec() == name@);
                assert(entry.is_file_spec());
            }
            assert(Self::finds(self.state(), name@, r));
        }
        r
    }

    fn free_blocks(&self) -> (n: usize) {
        xxdp::volume::XxdpFs::free_blocks(self)
    }

    fn used_blocks(&self) -> (n: usize) {
        xxdp::volume::XxdpFs::used_blocks(self)
    }

    fn read_file(&self, name: &str) -> (r: Result<Vec<u8>, Error>) {
        xxdp::volume::XxdpFs::read_file(self, name)
    }

    fn write_file(&mut self, name: &str, contents: &[u8]) -> (r: Result<(), Error>) {
        let r = xxdp::volume::XxdpFs::write_file(self, name, contents);
        proof {
            let sectors = old(self).image.contents();
            let size = old(self).image.sector_size_spec();
            if !(r == Err::<(), Error>(Error::DateOutOfRange) && self.view() == old(self).view()
                && self.image.contents() == sectors) {
                let date = choose|date: Date|
                    date.wf() && (r, self.view(), self.image.contents())
                        == #[trigger] xxdp::volume::write_file_outcome(
                        old(self).view(),
                        sectors,
                        size,
                        name@,
                        contents@,
                        date,
                    );
                assert((r, self.state(), self.image.contents()) == Self::write_outcome(
                    old(self).state(),
                    sectors,
                    size,
                    name@,
                    contents@,
                    date,
                ));
            }
        }
        r
    }

    fn delete(&mut self, name: &str) -> (r: Result<(), Error>) {
        xxdp::volume::XxdpFs::delete(self, name)
    }

    fn block_device(&self) -> (dev: &B) {
        xxdp::volume::XxdpFs::block_device(self)
    }

    fn rename_unchecked(&mut self, src: &str, dest: &str) -> (r: Result<(), Error>) {
        xxdp::volume::XxdpFs::rename_unchecked(self, src, dest)
    }
}

} // verus!
