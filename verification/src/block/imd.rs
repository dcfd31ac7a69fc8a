use vstd::prelude::*;

use vstd::utf8::{decode_utf8, encode_utf8, valid_utf8};
use crate::bytes::{copy_range, string_from_utf8};
use crate::date::Date;
use crate::error::Error;
use super::img::IMG;
use super::{read_view, sector_at, sectors_of, sectors_sized, Geometry, PhysicalBlockDevice, SectorState};

verus! {

/// An ImageDisk image: a comment and the tracks of the medium.
pub struct IMD {
    pub comment: String,
    pub track: Vec<Track>,
    pub geometry: Geometry,
}

/// A track of an ImageDisk image.
pub struct Track {
    pub mode: Mode,
    pub cylinder: u8,
    pub head: u8,
    pub sector_count: u8,
    pub sector_size: usize,
    pub sector_map: Vec<u8>,
    pub sector_data: Vec<Sector>,
}

/// Data rate and modulation of a track.
#[derive(Clone, Copy, Debug, PartialEq, Eq, Structural)]
pub enum Mode {
    M500kbitsFM,
    M300kbitsFM,
    M250kbitsFM,
    M500kbitsMFM,
    M300kbitsMFM,
    M250kbitsMFM,
}

/// The record of a sector.
pub struct Sector {
    pub data: SectorData,
    pub deleted: bool,
    pub error: bool,
}

/// What the record of a sector holds.
pub enum SectorData {
    Unavailable,
    Normal(Vec<u8>),
    Compressed(u8, usize),
}

/// What the record of a sector holds, as a mathematical value.
pub enum DataView {
    Unavailable,
    Normal(Seq<u8>),
    Compressed(u8, usize),
}

/// The record of a sector as a mathematical value.
pub struct SectorView {
    pub data: DataView,
    pub deleted: bool,
    pub error: bool,
}

/// A track as a mathematical value.
pub struct TrackView {
    pub mode: Mode,
    pub cylinder: u8,
    pub head: u8,
    pub sector_count: u8,
    pub sector_size: usize,
    pub sector_map: Seq<u8>,
    pub sector_data: Seq<SectorView>,
}

/// An image as a mathematical value.
pub struct ImdView {
    pub comment: Seq<char>,
    pub track: Seq<TrackView>,
    pub geometry: Geometry,
}

impl View for Sector {
    type V = SectorView;

    open spec fn view(&self) -> SectorView {
        SectorView {
            data: match self.data {
                SectorData::Unavailable => DataView::Unavailable,
                SectorData::Normal(d) => DataView::Normal(d@),
                SectorData::Compressed(b, n) => DataView::Compressed(b, n),
            },
            deleted: self.deleted,
            error: self.error,
        }
    }
}

/// The records as mathematical values.
pub open spec fn sector_views(sectors: Seq<Sector>) -> Seq<SectorView> {
    Seq::new(sectors.len(), |i: int| sectors[i]@)
}

impl View for Track {
    type V = TrackView;

    open spec fn view(&self) -> TrackView {
        TrackView {
            mode: self.mode,
            cylinder: self.cylinder,
            head: self.head,
            sector_count: self.sector_count,
            sector_size: self.sector_size,
            sector_map: self.sector_map@,
            sector_data: sector_views(self.sector_data@),
        }
    }
}

/// The tracks as mathematical values.
pub open spec fn track_views(tracks: Seq<Track>) -> Seq<TrackView> {
    Seq::new(tracks.len(), |i: int| tracks[i]@)
}

impl View for IMD {
    type V = ImdView;

    open spec fn view(&self) -> ImdView {
        ImdView { comment: self.comment@, track: track_views(self.track@), geometry: self.geometry }
    }
}

/// The byte that stands for a mode.
pub open spec fn mode_code(m: Mode) -> u8 {
    match m {
        Mode::M500kbitsFM => 0,
        Mode::M300kbitsFM => 1,
        Mode::M250kbitsFM => 2,
        Mode::M500kbitsMFM => 3,
        Mode::M300kbitsMFM => 4,
        Mode::M250kbitsMFM => 5,
    }
}

/// The mode that a byte stands for.
pub open spec fn code_mode(c: u8) -> Option<Mode> {
    if c == 0 {
        Some(Mode::M500kbitsFM)
    } else if c == 1 {
        Some(Mode::M300kbitsFM)
    } else if c == 2 {
        Some(Mode::M250kbitsFM)
    } else if c == 3 {
        Some(Mode::M500kbitsMFM)
    } else if c == 4 {
        Some(Mode::M300kbitsMFM)
    } else if c == 5 {
        Some(Mode::M250kbitsMFM)
    } else {
        None
    }
}

/// The sector size that a byte stands for: 128 doubled so many times.
pub open spec fn code_size(c: u8) -> Option<usize> {
    if c == 0 {
        Some(128usize)
    } else if c == 1 {
        Some(256usize)
    } else if c == 2 {
        Some(512usize)
    } else if c == 3 {
        Some(1024usize)
    } else if c == 4 {
        Some(2048usize)
    } else if c == 5 {
        Some(4096usize)
    } else if c == 6 {
        Some(8192usize)
    } else {
        None
    }
}

/// The byte that stands for a sector size.
pub open spec fn size_code(size: usize) -> Option<u8> {
    if size == 128 {
        Some(0u8)
    } else if size == 256 {
        Some(1u8)
    } else if size == 512 {
        Some(2u8)
    } else if size == 1024 {
        Some(3u8)
    } else if size == 2048 {
        Some(4u8)
    } else if size == 4096 {
        Some(5u8)
    } else if size == 8192 {
        Some(6u8)
    } else {
        None
    }
}

/// The type byte of a record: 0 for no data, else 1 for data in full or 2
/// for one byte that fills the sector, plus 2 if the sector is deleted and
/// 4 if it is in error. A record without data that is deleted or in error
/// has none.
pub open spec fn type_code(s: SectorView) -> Option<u8> {
    match s.data {
        DataView::Unavailable => if !s.deleted && !s.error { Some(0u8) } else { None },
        DataView::Normal(_) => Some((1 + (if s.deleted { 2int } else { 0 }) + (if s.error { 4int } else { 0 })) as u8),
        DataView::Compressed(_, _) => Some(
            (2 + (if s.deleted { 2int } else { 0 }) + (if s.error { 4int } else { 0 })) as u8,
        ),
    }
}

/// The bytes of a record: its type byte and what it holds.
pub open spec fn sector_bytes(s: SectorView) -> Result<Seq<u8>, Error> {
    match type_code(s) {
        None => Err(Error::Format),
        Some(t) => Ok(
            seq![t] + (match s.data {
                DataView::Unavailable => Seq::empty(),
                DataView::Normal(d) => d,
                DataView::Compressed(b, _) => seq![b],
            }),
        ),
    }
}

/// The bytes of the records one after the other.
pub open spec fn sectors_bytes(sectors: Seq<SectorView>) -> Result<Seq<u8>, Error>
    decreases sectors.len(),
{
    if sectors.len() == 0 {
        Ok(Seq::empty())
    } else {
        match sectors_bytes(sectors.drop_last()) {
            Err(e) => Err(e),
            Ok(head) => match sector_bytes(sectors.last()) {
                Err(e) => Err(e),
                Ok(last) => Ok(head + last),
            },
        }
    }
}

/// The bytes of a track: mode, cylinder, head, sector count, size code,
/// the sector map, and the records.
pub open spec fn track_bytes(t: TrackView) -> Result<Seq<u8>, Error> {
    match size_code(t.sector_size) {
        None => Err(Error::Format),
        Some(code) => match sectors_bytes(t.sector_data) {
            Err(e) => Err(e),
            Ok(records) => Ok(
                seq![mode_code(t.mode), t.cylinder, t.head, t.sector_count, code] + t.sector_map + records,
            ),
        },
    }
}

/// The bytes of the tracks one after the other.
pub open spec fn tracks_bytes(tracks: Seq<TrackView>) -> Result<Seq<u8>, Error>
    decreases tracks.len(),
{
    if tracks.len() == 0 {
        Ok(Seq::empty())
    } else {
        match tracks_bytes(tracks.drop_last()) {
            Err(e) => Err(e),
            Ok(head) => match track_bytes(tracks.last()) {
                Err(e) => Err(e),
                Ok(last) => Ok(head + last),
            },
        }
    }
}

/// The bytes of an image: the comment, the byte 0x1A, and the tracks.
pub open spec fn imd_bytes(comment: Seq<char>, tracks: Seq<TrackView>) -> Result<Seq<u8>, Error> {
    match tracks_bytes(tracks) {
        Err(e) => Err(e),
        Ok(body) => Ok(encode_utf8(comment) + seq![0x1Au8] + body),
    }
}

/// The record at byte `at` of `buf` for a sector of `size` bytes, and the
/// byte after it.
pub open spec fn parsed_sector(buf: Seq<u8>, at: int, size: usize) -> Result<(SectorView, int), Error> {
    if at < 0 || at >= buf.len() {
        Err(Error::Format)
    } else {
        let t = buf[at];
        if t == 0 {
            Ok((SectorView { data: DataView::Unavailable, deleted: false, error: false }, at + 1))
        } else if t > 8 {
            Err(Error::Format)
        } else {
            let deleted = t == 3 || t == 4 || t == 7 || t == 8;
            let error = t >= 5;
            if t % 2 == 1 {
                if at + 1 + size > buf.len() {
                    Err(Error::Format)
                } else {
                    Ok(
                        (
                            SectorView { data: DataView::Normal(buf.subrange(at + 1, at + 1 + size)), deleted, error },
                            at + 1 + size,
                        ),
                    )
                }
            } else if at + 2 > buf.len() {
                Err(Error::Format)
            } else {
                Ok((SectorView { data: DataView::Compressed(buf[at + 1], size), deleted, error }, at + 2))
            }
        }
    }
}

/// The `n` records from byte `at` of `buf` on, and the byte after them.
pub open spec fn parsed_sectors(buf: Seq<u8>, at: int, size: usize, n: nat) -> Result<(Seq<SectorView>, int), Error>
    decreases n,
{
    if n == 0 {
        Ok((Seq::empty(), at))
    } else {
        match parsed_sector(buf, at, size) {
            Err(e) => Err(e),
            Ok((s, next)) => match parsed_sectors(buf, next, size, (n - 1) as nat) {
                Err(e) => Err(e),
                Ok((rest, end)) => Ok((seq![s] + rest, end)),
            },
        }
    }
}

/// The track at byte `at` of `buf`, and the byte after it. A head byte from
/// 64 on asks for a map of cylinders or of heads, which is not handled.
pub open spec fn parsed_track(buf: Seq<u8>, at: int) -> Result<(TrackView, int), Error> {
    if at < 0 || at >= buf.len() || code_mode(buf[at]) is None || at + 2 >= buf.len() {
        Err(Error::Format)
    } else if buf[at + 2] >= 64 {
        Err(Error::Unsupported)
    } else if buf[at + 2] >= 2 || at + 4 >= buf.len() || code_size(buf[at + 4]) is None || at + 5 + buf[at + 3]
        > buf.len() {
        Err(Error::Format)
    } else {
        let count = buf[at + 3];
        let size = code_size(buf[at + 4]).unwrap();
        match parsed_sectors(buf, at + 5 + count, size, count as nat) {
            Err(e) => Err(e),
            Ok((records, end)) => Ok(
                (
                    TrackView {
                        mode: code_mode(buf[at]).unwrap(),
                        cylinder: buf[at + 1],
                        head: buf[at + 2],
                        sector_count: count,
                        sector_size: size,
                        sector_map: buf.subrange(at + 5, at + 5 + count),
                        sector_data: records,
                    },
                    end,
                ),
            ),
        }
    }
}

/// The tracks from byte `at` of `buf` to its end.
pub open spec fn parsed_tracks(buf: Seq<u8>, at: int) -> Result<Seq<TrackView>, Error>
    decreases buf.len() - at,
{
    if at < 0 || at >= buf.len() {
        Ok(Seq::empty())
    } else {
        match parsed_track(buf, at) {
            Err(e) => Err(e),
            Ok((t, next)) => if next <= at || next > buf.len() {
                Err(Error::Format)
            } else {
                match parsed_tracks(buf, next) {
                    Err(e) => Err(e),
                    Ok(rest) => Ok(seq![t] + rest),
                }
            },
        }
    }
}

/// Place of the first byte 0x1A of `buf` from `from` on, or its length.
pub open spec fn comment_end(buf: Seq<u8>, from: int) -> int
    decreases buf.len() - from,
{
    if 0 <= from < buf.len() && buf[from] != 0x1A {
        comment_end(buf, from + 1)
    } else {
        from
    }
}

/// A track has head 1.
pub open spec fn has_head_one(tracks: Seq<TrackView>) -> bool {
    exists|i: int| 0 <= i < tracks.len() && (#[trigger] tracks[i]).head == 1
}

/// The geometry of an image with these tracks: as many cylinders as
/// tracks, two heads if a track has head 1 and one if not, and the sectors
/// of the first track.
pub open spec fn tracks_geometry(tracks: Seq<TrackView>) -> Geometry {
    Geometry {
        cylinders: tracks.len() as usize,
        heads: if has_head_one(tracks) { 2 } else { 1 },
        sectors: tracks[0].sector_count as usize,
        sector_size: tracks[0].sector_size,
    }
}

/// The image that `buf` holds: the comment up to the first byte 0x1A, then
/// the tracks. An image without that byte, with a comment that is no
/// UTF-8, or without a track is refused.
pub open spec fn parsed_imd(buf: Seq<u8>) -> Result<ImdView, Error> {
    let end = comment_end(buf, 0);
    if end >= buf.len() || !valid_utf8(buf.subrange(0, end)) {
        Err(Error::Format)
    } else {
        match parsed_tracks(buf, end + 1) {
            Err(e) => Err(e),
            Ok(tracks) => if tracks.len() == 0 {
                Err(Error::Format)
            } else {
                Ok(
                    ImdView {
                        comment: decode_utf8(buf.subrange(0, end)),
                        track: tracks,
                        geometry: tracks_geometry(tracks),
                    },
                )
            },
        }
    }
}

/// What reading the sector of a record gives: its bytes, or that the
/// sector is deleted, in error or without data.
pub open spec fn sector_state(s: SectorView) -> SectorState {
    if s.deleted || s.error {
        Err(Error::SectorQuality)
    } else {
        match s.data {
            DataView::Unavailable => Err(Error::SectorQuality),
            DataView::Normal(d) => Ok(d),
            DataView::Compressed(b, n) => Ok(Seq::new(n as nat, |i: int| b)),
        }
    }
}

/// All bytes of `data` are the same.
pub open spec fn uniform(data: Seq<u8>) -> bool {
    forall|i: int| 0 <= i < data.len() ==> #[trigger] data[i] == data[0]
}

/// The record of a readable sector that holds `data`: one byte that fills
/// the sector where all bytes are the same, else the data in full.
pub open spec fn record_of(data: Seq<u8>, size: usize) -> SectorView {
    SectorView {
        data: if data.len() > 0 && uniform(data) {
            DataView::Compressed(data[0], size)
        } else {
            DataView::Normal(data)
        },
        deleted: false,
        error: false,
    }
}

fn is_uniform(data: &[u8]) -> (b: bool)
    ensures
        b == uniform(data@),
{
    let n = data.len();
    let mut i: usize = 0;
    while i < n
        invariant
            n == data@.len(),
            i <= n,
            forall|j: int| 0 <= j < i ==> #[trigger] data@[j] == data@[0],
        decreases n - i,
    {
        if data[i] != data[0] {
            return false;
        }
        i += 1;
    }
    true
}

impl Sector {
    /// The record of a readable sector that holds `data`.
    pub fn holding(data: &[u8], size: usize) -> (s: Sector)
        ensures
            s@ == record_of(data@, size),
    {
        let uniform = is_uniform(data);
        assert(data@.subrange(0, data@.len() as int) =~= data@);
        Sector {
            data: if data.len() > 0 && uniform {
                SectorData::Compressed(data[0], size)
            } else {
                SectorData::Normal(copy_range(data, 0, data.len()))
            },
            deleted: false,
            error: false,
        }
    }

    /// Reads the record at byte `at` of `buf` for a sector of
    /// `sector_size` bytes; gives the record and the byte after it.
    pub fn from_repr(buf: &[u8], at: usize, sector_size: usize) -> (r: Result<(Sector, usize), Error>)
        ensures
            match r {
                Ok((s, next)) => parsed_sector(buf@, at as int, sector_size) == Ok::<(SectorView, int), Error>(
                    (s@, next as int),
                ) && at < next <= buf@.len(),
                Err(e) => parsed_sector(buf@, at as int, sector_size) == Err::<(SectorView, int), Error>(e),
            },
    {
        let len = buf.len();
        if at >= len {
            return Err(Error::Format);
        }
        let t = buf[at];
        if t == 0 {
            return Ok((Sector { data: SectorData::Unavailable, deleted: false, error: false }, at + 1));
        }
        if t > 8 {
            return Err(Error::Format);
        }
        let deleted = t == 3 || t == 4 || t == 7 || t == 8;
        let error = t >= 5;
        if t % 2 == 1 {
            if sector_size > len - at - 1 {
                return Err(Error::Format);
            }
            Ok(
                (
                    Sector { data: SectorData::Normal(copy_range(buf, at + 1, at + 1 + sector_size)), deleted, error },
                    at + 1 + sector_size,
                ),
            )
        } else {
            if len - at < 2 {
                return Err(Error::Format);
            }
            Ok((Sector { data: SectorData::Compressed(buf[at + 1], sector_size), deleted, error }, at + 2))
        }
    }

    /// The bytes of the record.
    pub fn repr(&self) -> (r: Result<Vec<u8>, Error>)
        ensures
            read_view(r) == sector_bytes(self@),
    {
        let flags: u8 = (if self.deleted { 2 } else { 0 }) + (if self.error { 4 } else { 0 });
        let mut out: Vec<u8> = Vec::new();
        match &self.data {
            SectorData::Unavailable => {
                if self.deleted || self.error {
                    return Err(Error::Format);
                }
                out.push(0);
                assert(out@ =~= seq![0u8] + Seq::<u8>::empty());
            },
            SectorData::Normal(data) => {
                out.push(1 + flags);
                out.extend_from_slice(data.as_slice());
                assert(out@ =~= seq![(1 + flags) as u8] + data@);
            },
            SectorData::Compressed(b, _) => {
                out.push(2 + flags);
                out.push(*b);
                assert(out@ =~= seq![(2 + flags) as u8] + seq![*b]);
            },
        }
        Ok(out)
    }

    /// The bytes of the sector, unless it is deleted, in error or without
    /// data.
    pub fn as_bytes(&self) -> (r: Result<Vec<u8>, Error>)
        ensures
            read_view(r) == sector_state(self@),
    {
        if self.deleted || self.error {
            return Err(Error::SectorQuality);
        }
        match &self.data {
            SectorData::Unavailable => Err(Error::SectorQuality),
            SectorData::Normal(data) => Ok(data.clone()),
            SectorData::Compressed(val, count) => {
                let mut out: Vec<u8> = Vec::new();
                let mut i: usize = 0;
                while i < *count
                    invariant
                        i <= *count,
                        out@ == Seq::new(i as nat, |j: int| *val),
                    decreases *count - i,
                {
                    out.push(*val);
                    i += 1;
                    assert(out@ =~= Seq::new(i as nat, |j: int| *val));
                }
                Ok(out)
            },
        }
    }
}

/// The records found so far followed by what is still to be read.
pub open spec fn sectors_then(found: Seq<SectorView>, rest: Result<(Seq<SectorView>, int), Error>) -> Result<
    (Seq<SectorView>, int),
    Error,
> {
    match rest {
        Err(e) => Err(e),
        Ok((more, end)) => Ok((found + more, end)),
    }
}

/// The tracks found so far followed by what is still to be read.
pub open spec fn tracks_then(found: Seq<TrackView>, rest: Result<Seq<TrackView>, Error>) -> Result<
    Seq<TrackView>,
    Error,
> {
    match rest {
        Err(e) => Err(e),
        Ok(more) => Ok(found + more),
    }
}

fn size_of_code(c: u8) -> (r: Option<usize>)
    ensures
        r == code_size(c),
{
    match c {
        0 => Some(128),
        1 => Some(256),
        2 => Some(512),
        3 => Some(1024),
        4 => Some(2048),
        5 => Some(4096),
        6 => Some(8192),
        _ => None,
    }
}

fn code_of_size(size: usize) -> (r: Option<u8>)
    ensures
        r == size_code(size),
{
    if size == 128 {
        Some(0)
    } else if size == 256 {
        Some(1)
    } else if size == 512 {
        Some(2)
    } else if size == 1024 {
        Some(3)
    } else if size == 2048 {
        Some(4)
    } else if size == 4096 {
        Some(5)
    } else if size == 8192 {
        Some(6)
    } else {
        None
    }
}

fn mode_of_code(c: u8) -> (r: Option<Mode>)
    ensures
        r == code_mode(c),
{
    match c {
        0 => Some(Mode::M500kbitsFM),
        1 => Some(Mode::M300kbitsFM),
        2 => Some(Mode::M250kbitsFM),
        3 => Some(Mode::M500kbitsMFM),
        4 => Some(Mode::M300kbitsMFM),
        5 => Some(Mode::M250kbitsMFM),
        _ => None,
    }
}

fn code_of_mode(m: Mode) -> (r: u8)
    ensures
        r == mode_code(m),
{
    match m {
        Mode::M500kbitsFM => 0,
        Mode::M300kbitsFM => 1,
        Mode::M250kbitsFM => 2,
        Mode::M500kbitsMFM => 3,
        Mode::M300kbitsMFM => 4,
        Mode::M250kbitsMFM => 5,
    }
}

impl Track {
    /// Reads the track at byte `at` of `buf`; gives the track and the byte
    /// after it.
    pub fn from_repr(buf: &[u8], at: usize) -> (r: Result<(Track, usize), Error>)
        ensures
            match r {
                Ok((t, next)) => parsed_track(buf@, at as int) == Ok::<(TrackView, int), Error>((t@, next as int))
                    && at < next <= buf@.len(),
                Err(e) => parsed_track(buf@, at as int) == Err::<(TrackView, int), Error>(e),
            },
    {
        let len = buf.len();
        if at >= len {
            return Err(Error::Format);
        }
        let mode = match mode_of_code(buf[at]) {
            Some(m) => m,
            None => { return Err(Error::Format); },
        };
        if len - at <= 2 {
            return Err(Error::Format);
        }
        let cylinder = buf[at + 1];
        let head = buf[at + 2];
        if head >= 64 {
            return Err(Error::Unsupported);
        }
        if head >= 2 || len - at <= 4 {
            return Err(Error::Format);
        }
        let sector_count = buf[at + 3];
        let sector_size = match size_of_code(buf[at + 4]) {
            Some(s) => s,
            None => { return Err(Error::Format); },
        };
        if sector_count as usize > len - at - 5 {
            return Err(Error::Format);
        }
        let sector_map = copy_range(buf, at + 5, at + 5 + sector_count as usize);
        let mut sector_data: Vec<Sector> = Vec::new();
        let mut pos: usize = at + 5 + sector_count as usize;
        let mut i: u8 = 0;
        let ghost whole = parsed_sectors(buf@, at + 5 + sector_count, sector_size, sector_count as nat);
        proof {
            assert(sector_views(sector_data@) =~= Seq::<SectorView>::empty());
            if let Ok((more, end)) = whole {
                assert(Seq::<SectorView>::empty() + more =~= more);
            }
        }
        while i < sector_count
            invariant
                len == buf@.len(),
                at + 5 + sector_count <= pos <= len,
                i <= sector_count,
                whole == parsed_sectors(buf@, at + 5 + sector_count, sector_size, sector_count as nat),
                whole == sectors_then(
                    sector_views(sector_data@),
                    parsed_sectors(buf@, pos as int, sector_size, (sector_count - i) as nat),
                ),
                at < len,
                code_mode(buf@[at as int]) == Some(mode),
                at + 4 < len,
                buf@[at + 2] == head,
                head < 2,
                buf@[at + 3] == sector_count,
                code_size(buf@[at + 4]) == Some(sector_size),
                at + 5 + sector_count <= len,
            decreases sector_count - i,
        {
            let (sector, next) = match Sector::from_repr(buf, pos, sector_size) {
                Ok(found) => found,
                Err(e) => { return Err(e); },
            };
            let ghost found = sector_views(sector_data@);
            let ghost sv = sector@;
            proof {
                if let Ok((more, end)) = parsed_sectors(buf@, next as int, sector_size, (sector_count - i - 1) as nat) {
                    assert(found + (seq![sv] + more) =~= found.push(sv) + more);
                }
            }
            sector_data.push(sector);
            proof {
                assert(sector_views(sector_data@) =~= found.push(sv));
            }
            pos = next;
            i += 1;
        }
        proof {
            assert(sector_views(sector_data@) + Seq::<SectorView>::empty() =~= sector_views(sector_data@));
        }
        Ok((Track { mode, cylinder, head, sector_count, sector_size, sector_map, sector_data }, pos))
    }

    /// The bytes of the track.
    pub fn repr(&self) -> (r: Result<Vec<u8>, Error>)
        ensures
            read_view(r) == track_bytes(self@),
    {
        let code = match code_of_size(self.sector_size) {
            Some(c) => c,
            None => { return Err(Error::Format); },
        };
        let mut out: Vec<u8> = Vec::new();
        out.push(code_of_mode(self.mode));
        out.push(self.cylinder);
        out.push(self.head);
        out.push(self.sector_count);
        out.push(code);
        out.extend_from_slice(self.sector_map.as_slice());
        let ghost head = out@;
        assert(head =~= seq![mode_code(self.mode), self.cylinder, self.head, self.sector_count, code] + self.sector_map@);
        let ghost views = sector_views(self.sector_data@);
        let n = self.sector_data.len();
        let mut i: usize = 0;
        proof {
            assert(views.subrange(0, 0) =~= Seq::<SectorView>::empty());
            assert(out@ =~= head + Seq::<u8>::empty());
        }
        while i < n
            invariant
                n == self.sector_data@.len(),
                i <= n,
                views == sector_views(self.sector_data@),
                size_code(self.sector_size) == Some(code),
                head == seq![mode_code(self.mode), self.cylinder, self.head, self.sector_count, code] + self.sector_map@,
                sectors_bytes(views.subrange(0, i as int)) matches Ok(body) && out@ == head + body,
            decreases n - i,
        {
            proof {
                assert(views.subrange(0, i + 1).drop_last() =~= views.subrange(0, i as int));
                assert(views.subrange(0, i + 1).last() == self.sector_data@[i as int]@);
            }
            match self.sector_data[i].repr() {
                Err(e) => {
                    proof {
                        lemma_sectors_bytes_error(views, i + 1);
                    }
                    return Err(e);
                },
                Ok(bytes) => {
                    let mut bytes = bytes;
                    let ghost piece = bytes@;
                    out.append(&mut bytes);
                    proof {
                        let body = sectors_bytes(views.subrange(0, i as int)).unwrap();
                        assert(out@ =~= head + (body + piece));
                    }
                },
            }
            i += 1;
        }
        proof {
            assert(views.subrange(0, n as int) =~= views);
        }
        Ok(out)
    }
}

pub proof fn lemma_sectors_bytes_error(sectors: Seq<SectorView>, k: int)
    requires
        0 <= k <= sectors.len(),
        sectors_bytes(sectors.subrange(0, k)) is Err,
    ensures
        sectors_bytes(sectors) == sectors_bytes(sectors.subrange(0, k)),
    decreases sectors.len() - k,
{
    if k < sectors.len() {
        assert(sectors.subrange(0, k + 1).drop_last() =~= sectors.subrange(0, k));
        lemma_sectors_bytes_error(sectors, k + 1);
    } else {
        assert(sectors.subrange(0, k) =~= sectors);
    }
}

pub proof fn lemma_tracks_bytes_error(tracks: Seq<TrackView>, k: int)
    requires
        0 <= k <= tracks.len(),
        tracks_bytes(tracks.subrange(0, k)) is Err,
    ensures
        tracks_bytes(tracks) == tracks_bytes(tracks.subrange(0, k)),
    decreases tracks.len() - k,
{
    if k < tracks.len() {
        assert(tracks.subrange(0, k + 1).drop_last() =~= tracks.subrange(0, k));
        lemma_tracks_bytes_error(tracks, k + 1);
    } else {
        assert(tracks.subrange(0, k) =~= tracks);
    }
}

impl IMD {
    /// Reads an image from the bytes of its file.
    pub fn from_bytes(image: &[u8]) -> (r: Result<IMD, Error>)
        ensures
            match r {
                Ok(imd) => parsed_imd(image@) == Ok::<ImdView, Error>(imd@),
                Err(e) => parsed_imd(image@) == Err::<ImdView, Error>(e),
            },
    {
        let len = image.len();
        let mut end: usize = 0;
        while end < len && image[end] != 0x1A
            invariant
                len == image@.len(),
                end <= len,
                comment_end(image@, 0) == comment_end(image@, end as int),
            decreases len - end,
        {
            end += 1;
        }
        if end >= len {
            return Err(Error::Format);
        }
        let comment = match string_from_utf8(copy_range(image, 0, end)) {
            Some(c) => c,
            None => { return Err(Error::Format); },
        };
        let mut tracks: Vec<Track> = Vec::new();
        let mut any_head_one = false;
        let mut pos: usize = end + 1;
        let ghost whole = parsed_tracks(image@, end + 1);
        proof {
            assert(track_views(tracks@) =~= Seq::<TrackView>::empty());
            if let Ok(more) = whole {
                assert(Seq::<TrackView>::empty() + more =~= more);
            }
        }
        while pos < len
            invariant
                len == image@.len(),
                end < len,
                end == comment_end(image@, 0),
                valid_utf8(image@.subrange(0, end as int)),
                comment@ == decode_utf8(image@.subrange(0, end as int)),
                end + 1 <= pos <= len,
                whole == parsed_tracks(image@, end + 1),
                whole == tracks_then(track_views(tracks@), parsed_tracks(image@, pos as int)),
                any_head_one == has_head_one(track_views(tracks@)),
            decreases len - pos,
        {
            let (track, next) = match Track::from_repr(image, pos) {
                Ok(found) => found,
                Err(e) => { return Err(e); },
            };
            let ghost found = track_views(tracks@);
            let ghost tv = track@;
            proof {
                if let Ok(more) = parsed_tracks(image@, next as int) {
                    assert(found + (seq![tv] + more) =~= found.push(tv) + more);
                }
            }
            let head_one = track.head == 1;
            tracks.push(track);
            proof {
                let now = track_views(tracks@);
                assert(now =~= found.push(tv));
                if has_head_one(found) {
                    let w = choose|i: int| 0 <= i < found.len() && (#[trigger] found[i]).head == 1;
                    assert(now[w].head == 1);
                }
                if head_one {
                    assert(now[found.len() as int].head == 1);
                }
                if has_head_one(now) && !head_one {
                    let w = choose|i: int| 0 <= i < now.len() && (#[trigger] now[i]).head == 1;
                    assert(found[w].head == 1);
                }
            }
            any_head_one = any_head_one || head_one;
            pos = next;
        }
        proof {
            assert(track_views(tracks@) + Seq::<TrackView>::empty() =~= track_views(tracks@));
        }
        if tracks.len() == 0 {
            return Err(Error::Format);
        }
        let geometry = Geometry {
            cylinders: tracks.len(),
            heads: if any_head_one { 2 } else { 1 },
            sectors: tracks[0].sector_count as usize,
            sector_size: tracks[0].sector_size,
        };
        Ok(IMD { comment, geometry, track: tracks })
    }

    /// The bytes of the file of the image.
    pub fn repr(&self) -> (r: Result<Vec<u8>, Error>)
        ensures
            read_view(r) == imd_bytes(self.comment@, track_views(self.track@)),
    {
        let mut out: Vec<u8> = Vec::new();
        out.extend_from_slice(self.comment.as_str().as_bytes());
        out.push(0x1A);
        let ghost head = out@;
        assert(head =~= encode_utf8(self.comment@) + seq![0x1Au8]);
        let ghost views = track_views(self.track@);
        let n = self.track.len();
        let mut i: usize = 0;
        proof {
            assert(views.subrange(0, 0) =~= Seq::<TrackView>::empty());
            assert(out@ =~= head + Seq::<u8>::empty());
        }
        while i < n
            invariant
                n == self.track@.len(),
                i <= n,
                views == track_views(self.track@),
                head == encode_utf8(self.comment@) + seq![0x1Au8],
                tracks_bytes(views.subrange(0, i as int)) matches Ok(body) && out@ == head + body,
            decreases n - i,
        {
            proof {
                assert(views.subrange(0, i + 1).drop_last() =~= views.subrange(0, i as int));
                assert(views.subrange(0, i + 1).last() == self.track@[i as int]@);
            }
            match self.track[i].repr() {
                Err(e) => {
                    proof {
                        lemma_tracks_bytes_error(views, i + 1);
                    }
                    return Err(e);
                },
                Ok(bytes) => {
                    let mut bytes = bytes;
                    let ghost piece = bytes@;
                    out.append(&mut bytes);
                    proof {
                        let body = tracks_bytes(views.subrange(0, i as int)).unwrap();
                        assert(out@ =~= head + (body + piece));
                    }
                },
            }
            i += 1;
        }
        proof {
            assert(views.subrange(0, n as int) =~= views);
        }
        Ok(out)
    }
}

/// What a record holds has `size` bytes.
pub open spec fn record_sized(s: SectorView, size: usize) -> bool {
    match s.data {
        DataView::Unavailable => true,
        DataView::Normal(d) => d.len() == size,
        DataView::Compressed(_, n) => n == size,
    }
}

/// The track fits the geometry: it has its sectors and their size, the
/// sector map names each of the sectors 1 to the sector count once, and
/// what the records hold has the size of a sector.
pub open spec fn track_wf(t: TrackView, g: Geometry) -> bool {
    &&& t.sector_count == g.sectors
    &&& t.sector_size == g.sector_size
    &&& t.sector_map.len() == g.sectors
    &&& t.sector_data.len() == g.sectors
    &&& forall|s: int| 0 <= s < t.sector_map.len() ==> 1 <= #[trigger] t.sector_map[s] <= g.sectors
    &&& forall|a: int, b: int|
        0 <= a < b < t.sector_map.len() ==> #[trigger] t.sector_map[a] != #[trigger] t.sector_map[b]
    &&& forall|i: int| 0 <= i < t.sector_data.len() ==> record_sized(#[trigger] t.sector_data[i], g.sector_size)
}

/// The image can be used as a device: every track fits the geometry.
pub open spec fn imd_wf(v: ImdView) -> bool {
    &&& v.geometry.wf()
    &&& v.geometry.sectors <= 255
    &&& forall|t: int| 0 <= t < v.track.len() ==> track_wf(#[trigger] v.track[t], v.geometry)
}

/// What reading sector `i` of the image gives, the sectors counted track
/// by track in the order of the sector maps.
pub open spec fn imd_sector(v: ImdView, i: int) -> SectorState {
    let t = v.track[i / (v.geometry.sectors as int)];
    sector_state(t.sector_data[t.sector_map[i % (v.geometry.sectors as int)] - 1])
}

/// The sectors of the image.
pub open spec fn imd_contents(v: ImdView) -> Seq<SectorState> {
    Seq::new((v.track.len() * v.geometry.sectors) as nat, |i: int| imd_sector(v, i))
}

/// The image with sector `i` written: the record that the sector map of its
/// track names for it is replaced by the record of a readable sector that
/// holds `data`; the sector map stays as it is.
pub open spec fn imd_written(v: ImdView, i: int, data: Seq<u8>) -> ImdView {
    let t = i / (v.geometry.sectors as int);
    let track = v.track[t];
    let raw = track.sector_map[i % (v.geometry.sectors as int)] - 1;
    ImdView {
        track: v.track.update(
            t,
            TrackView { sector_data: track.sector_data.update(raw, record_of(data, track.sector_size)), ..track },
        ),
        ..v
    }
}

/// A geometry that an image can hold: cylinder, head and sector count are
/// bytes, and a head is 0 or 1.
pub open spec fn imd_can_hold(g: Geometry) -> bool {
    g.cylinders <= 256 && g.heads <= 2 && g.sectors <= 255
}

pub proof fn lemma_div_mod(i: int, s: int, n: int)
    requires
        s > 0,
        0 <= i < n * s,
    ensures
        0 <= i / s < n,
        0 <= i % s < s,
        i == (i / s) * s + i % s,
{
    assert(i == (i / s) * s + i % s) by (nonlinear_arith)
        requires s > 0;
    assert(0 <= i / s < n) by (nonlinear_arith)
        requires s > 0, 0 <= i < n * s;
}

pub proof fn lemma_place(t: int, k: int, s: int)
    requires
        s > 0,
        0 <= t,
        0 <= k < s,
    ensures
        (t * s + k) / s == t,
        (t * s + k) % s == k,
{
    assert((t * s + k) / s == t && (t * s + k) % s == k) by (nonlinear_arith)
        requires s > 0, 0 <= t, 0 <= k < s;
}

/// The record of a sector that holds `data` reads as `data`.
pub proof fn lemma_record_state(data: Seq<u8>, size: usize)
    requires
        data.len() == size,
    ensures
        sector_state(record_of(data, size)) == Ok::<Seq<u8>, Error>(data),
        record_sized(record_of(data, size), size),
{
    if data.len() > 0 && uniform(data) {
        assert(Seq::new(size as nat, |i: int| data[0]) =~= data);
    }
}

impl IMD {
    /// The track and the place in its sector map of sector
    /// `(cylinder, head, sector)`, if the image has that sector.
    fn locate(&self, cylinder: usize, head: usize, sector: usize) -> (at: Option<(usize, usize)>)
        requires
            imd_wf(self@),
        ensures
            match at {
                Some((t, k)) => t * self.geometry.sectors + k == self.geometry.linear(
                    cylinder as int,
                    head as int,
                    sector as int,
                ) && t < self.track@.len() && k < self.geometry.sectors && t * self.geometry.sectors + k
                    < imd_contents(self@).len(),
                None => self.geometry.linear(cylinder as int, head as int, sector as int) >= imd_contents(
                    self@,
                ).len(),
            },
    {
        let g = &self.geometry;
        let count = self.track.len();
        let ghost c = cylinder as int;
        let ghost h = head as int;
        let ghost s = sector as int;
        let ghost hh = g.heads as int;
        let ghost ss = g.sectors as int;
        let ghost lin = g.linear(c, h, s);
        proof {
            assert(lin >= c * hh + h >= 0 && lin >= s) by (nonlinear_arith)
                requires hh >= 1, ss >= 1, c >= 0, h >= 0, s >= 0, lin == (c * hh + h) * ss + s;
            assert(lin >= (c * hh + h) * ss) by (nonlinear_arith)
                requires lin == (c * hh + h) * ss + s, s >= 0;
            assert(imd_contents(self@).len() == count * ss);
        }
        proof {
            if c * hh + h >= count {
                assert((c * hh + h) * ss >= count * ss) by (nonlinear_arith)
                    requires c * hh + h >= count, ss >= 1;
            }
        }
        let track = match cylinder.checked_mul(g.heads) {
            None => { return None; },
            Some(t) => match t.checked_add(head) {
                None => { return None; },
                Some(t) => t,
            },
        };
        if track >= count {
            return None;
        }
        let extra = sector / g.sectors;
        let k = sector % g.sectors;
        proof {
            assert(sector == extra * ss + k) by (nonlinear_arith)
                requires extra == sector as int / ss, k == sector as int % ss, ss > 0;
            assert(lin == (track + extra) * ss + k) by (nonlinear_arith)
                requires lin == track * ss + sector, sector == extra * ss + k;
        }
        if extra >= count - track {
            proof {
                assert((track + extra) * ss >= count * ss) by (nonlinear_arith)
                    requires track + extra >= count, ss >= 1;
            }
            return None;
        }
        proof {
            assert((track + extra) * ss + k < count * ss) by (nonlinear_arith)
                requires track + extra <= count - 1, 0 <= k < ss;
        }
        Some((track + extra, k))
    }

    /// The image can be used as a device.
    pub fn is_device(&self) -> (b: bool)
        ensures
            b == imd_wf(self@),
    {
        let g = self.geometry;
        if !geometry_ok(&g) || g.sectors > 255 {
            return false;
        }
        let ghost v = self@;
        let mut t: usize = 0;
        while t < self.track.len()
            invariant
                t <= self.track@.len(),
                v == self@,
                g == self.geometry,
                g.wf(),
                g.sectors <= 255,
                forall|i: int| 0 <= i < t ==> track_wf(#[trigger] v.track[i], g),
            decreases self.track@.len() - t,
        {
            assert(v.track[t as int] == self.track@[t as int]@);
            if !track_ok(&self.track[t], &g) {
                return false;
            }
            t += 1;
        }
        true
    }

    /// An image of the given geometry that holds `data`, with the given
    /// comment.
    pub fn with_comment(data: &[u8], geometry: Geometry, comment: String) -> (imd: IMD)
        requires
            geometry.wf(),
            imd_can_hold(geometry),
            data@.len() == geometry.bytes_spec(),
        ensures
            imd_wf(imd@),
            imd.geometry == geometry,
            imd.comment == comment,
            imd@ == fresh_image(data@, geometry, comment@),
            imd_contents(imd@) == sectors_of(data@, geometry.sector_size as int),
    {
        let g = geometry;
        let ghost ss = g.sectors as int;
        let ghost zz = g.sector_size as int;
        let total = data.len();
        proof {
            g.lemma_sizes();
            let c = g.cylinders as int;
            let h = g.heads as int;
            assert(c * h >= 1) by (nonlinear_arith)
                requires c >= 1, h >= 1;
            assert(ss * zz >= 0) by (nonlinear_arith)
                requires ss >= 0, zz >= 0;
            assert((c * h) * (ss * zz) == c * h * ss * zz) by (nonlinear_arith);
            assert(ss * zz <= (c * h) * (ss * zz)) by (nonlinear_arith)
                requires c * h >= 1, ss * zz >= 0;
        }
        let tracks = g.cylinders * g.heads;
        let track_bytes = g.sectors * g.sector_size;
        let mut list: Vec<Track> = Vec::new();
        let mut t: usize = 0;
        while t < tracks
            invariant
                t <= tracks,
                g == geometry,
                g.wf(),
                imd_can_hold(g),
                ss == g.sectors,
                zz == g.sector_size,
                tracks == g.cylinders * g.heads,
                track_bytes == ss * zz,
                tracks * (ss * zz) == data@.len(),
                total == data@.len(),
                list@.len() == t,
                forall|i: int| 0 <= i < t ==> track_wf(#[trigger] list@[i]@, g),
                forall|i: int, k: int|
                    0 <= i < t && 0 <= k < ss ==> sector_state(#[trigger] list@[i]@.sector_data[k]) == Ok::<
                        Seq<u8>,
                        Error,
                    >(data@.subrange((i * ss + k) * zz, (i * ss + k + 1) * zz)),
                forall|i: int, k: int| 0 <= i < t && 0 <= k < ss ==> #[trigger] list@[i]@.sector_map[k] == k + 1,
                forall|i: int|
                    0 <= i < t ==> #[trigger] list@[i]@ == fresh_track(
                        data@,
                        i * (ss * zz),
                        g,
                        (i / g.heads as int) as u8,
                        (i % g.heads as int) as u8,
                    ),
            decreases tracks - t,
        {
            proof {
                assert(ss * zz >= 0) by (nonlinear_arith)
                    requires ss >= 0, zz >= 0;
                assert(t * (ss * zz) + ss * zz <= tracks * (ss * zz)) by (nonlinear_arith)
                    requires t + 1 <= tracks, ss * zz >= 0;
                assert(0 <= t * (ss * zz)) by (nonlinear_arith)
                    requires t >= 0, ss * zz >= 0;
            }
            let track = blank_track(data, t * track_bytes, &g, (t / g.heads) as u8, (t % g.heads) as u8);
            proof {
                assert forall|k: int| 0 <= k < ss implies sector_state(#[trigger] track@.sector_data[k]) == Ok::<
                    Seq<u8>,
                    Error,
                >(data@.subrange((t * ss + k) * zz, (t * ss + k + 1) * zz)) by {
                    assert(t * (ss * zz) + k * zz == (t * ss + k) * zz) by (nonlinear_arith);
                    assert(t * (ss * zz) + (k + 1) * zz == (t * ss + k + 1) * zz) by (nonlinear_arith);
                }
            }
            list.push(track);
            t += 1;
        }
        let imd = IMD { comment, track: list, geometry: g };
        proof {
            assert(imd@.track =~= fresh_image(data@, g, comment@).track);
            let v = imd@;
            let a = imd_contents(v);
            let b = sectors_of(data@, zz);
            assert(tracks * ss * zz == data@.len()) by (nonlinear_arith)
                requires tracks * (ss * zz) == data@.len();
            assert(data@.len() as int / zz == tracks * ss) by (nonlinear_arith)
                requires tracks * ss * zz == data@.len(), zz > 0;
            assert(a.len() == b.len());
            assert forall|i: int| 0 <= i < a.len() implies a[i] == b[i] by {
                lemma_div_mod(i, ss, tracks as int);
                let ti = i / ss;
                let k = i % ss;
                assert(v.track[ti] == imd.track@[ti]@);
                assert(imd.track@[ti]@.sector_map[k] == k + 1);
                assert(sector_state(imd.track@[ti]@.sector_data[k]) == Ok::<Seq<u8>, Error>(
                    data@.subrange((ti * ss + k) * zz, (ti * ss + k + 1) * zz),
                ));
            }
            assert(a =~= b);
            assert forall|ti: int| 0 <= ti < v.track.len() implies track_wf(#[trigger] v.track[ti], v.geometry) by {
                assert(v.track[ti] == imd.track@[ti]@);
            }
        }
        imd
    }

    /// The image `img` in this format: the same geometry and the same
    /// bytes in every sector, the sectors of each track numbered in their
    /// order, and a comment that says when it was made.
    pub fn from_img(img: IMG) -> (imd: IMD)
        requires
            img.geometry.wf(),
            imd_can_hold(img.geometry),
            img.data@.len() == img.geometry.bytes_spec(),
        ensures
            imd_wf(imd@),
            imd.geometry == img.geometry,
            imd@ == fresh_image(img.data@, img.geometry, imd.comment@),
            imd_contents(imd@) == sectors_of(img.data@, img.geometry.sector_size as int),
            imd.contents() == img.contents(),
            stamped(imd.comment@),
    {
        IMD::with_comment(img.data.as_slice(), img.geometry, conversion_comment())
    }
}

/// Track number `t` of an image that is made from the bytes of its sectors:
/// the sectors are numbered in their order and all readable.
pub open spec fn fresh_track(data: Seq<u8>, from: int, g: Geometry, cylinder: u8, head: u8) -> TrackView {
    TrackView {
        mode: Mode::M250kbitsFM,
        cylinder,
        head,
        sector_count: g.sectors as u8,
        sector_size: g.sector_size,
        sector_map: Seq::new(g.sectors as nat, |k: int| (k + 1) as u8),
        sector_data: Seq::new(
            g.sectors as nat,
            |k: int| record_of(data.subrange(from + k * g.sector_size, from + (k + 1) * g.sector_size), g.sector_size),
        ),
    }
}

/// The image of geometry `g` that is made from the bytes `data` of its
/// sectors: one track for each head of each cylinder, in that order.
pub open spec fn fresh_image(data: Seq<u8>, g: Geometry, comment: Seq<char>) -> ImdView {
    ImdView {
        comment,
        track: Seq::new(
            (g.cylinders * g.heads) as nat,
            |t: int|
                fresh_track(
                    data,
                    t * (g.sectors * g.sector_size),
                    g,
                    (t / g.heads as int) as u8,
                    (t % g.heads as int) as u8,
                ),
        ),
        geometry: g,
    }
}

/// The comment of an image that is made here at the time `stamp`: the
/// version of the format and the time on the first line, then two lines
/// that say where the image comes from.
pub open spec fn conversion_text(stamp: Seq<char>) -> Seq<char> {
    "IMD 1.18: "@ + stamp + "\nConverted from IMG by rt11fs[1]\n[1]: https://porkrind.org/rt11fs\n"@
}

/// The last decimal digit of `n`.
pub open spec fn digit_text(n: int) -> Seq<char> {
    let d = n % 10;
    if d == 0 {
        "0"@
    } else if d == 1 {
        "1"@
    } else if d == 2 {
        "2"@
    } else if d == 3 {
        "3"@
    } else if d == 4 {
        "4"@
    } else if d == 5 {
        "5"@
    } else if d == 6 {
        "6"@
    } else if d == 7 {
        "7"@
    } else if d == 8 {
        "8"@
    } else {
        "9"@
    }
}

/// The last two decimal digits of `n`.
pub open spec fn two_digits(n: int) -> Seq<char> {
    digit_text(n / 10) + digit_text(n)
}

/// The year that a time stamp shows: the year itself from 0 to 9999, else 0.
pub open spec fn stamp_year(date: Date) -> int {
    if 0 <= date.year <= 9999 {
        date.year as int
    } else {
        0
    }
}

/// A day and the seconds since its midnight as month, day, year and time
/// of day.
pub open spec fn stamp_text(date: Date, second: u32) -> Seq<char> {
    two_digits(date.month as int) + "/"@ + two_digits(date.day as int) + "/"@ + two_digits(stamp_year(date) / 100)
        + two_digits(stamp_year(date)) + " "@ + two_digits(second as int / 3600) + ":"@ + two_digits(
        second as int / 60 % 60,
    ) + ":"@ + two_digits(second as int % 60)
}

/// The comment is that of an image made here, at some second of some day.
pub open spec fn stamped(comment: Seq<char>) -> bool {
    exists|date: Date, second: u32|
        date.wf() && second < 86400 && comment == conversion_text(#[trigger] stamp_text(date, second))
}

fn digit_of(n: u32) -> (s: &'static str)
    ensures
        s@ == digit_text(n as int),
{
    let d: u32 = n % 10;
    if d == 0 {
        "0"
    } else if d == 1 {
        "1"
    } else if d == 2 {
        "2"
    } else if d == 3 {
        "3"
    } else if d == 4 {
        "4"
    } else if d == 5 {
        "5"
    } else if d == 6 {
        "6"
    } else if d == 7 {
        "7"
    } else if d == 8 {
        "8"
    } else {
        "9"
    }
}

fn two_digits_of(n: u32) -> (s: String)
    ensures
        s@ == two_digits(n as int),
{
    String::from_str(digit_of(n / 10)).concat(digit_of(n))
}

/// The time stamp of a day and the seconds since its midnight.
pub fn stamp_of(date: Date, second: u32) -> (s: String)
    ensures
        s@ == stamp_text(date, second),
{
    let y: u32 = if 0 <= date.year && date.year <= 9999 {
        date.year as u32
    } else {
        0
    };
    let a = two_digits_of(date.month).concat("/").concat(two_digits_of(date.day).as_str()).concat("/");
    let b = a.concat(two_digits_of(y / 100).as_str()).concat(two_digits_of(y).as_str()).concat(" ");
    let c = b.concat(two_digits_of(second / 3600).as_str()).concat(":");
    let d = c.concat(two_digits_of(second / 60 % 60).as_str()).concat(":");
    d.concat(two_digits_of(second % 60).as_str())
}

/// The time stamp of a moment; without one, that of the first second of
/// 1970.
pub open spec fn moment_text(moment: Option<(Date, u32)>) -> Seq<char> {
    match moment {
        Some((date, second)) => stamp_text(date, second),
        None => stamp_text(Date { year: 1970, month: 1, day: 1 }, 0),
    }
}

/// The comment of an image that is made here at the given moment; without
/// one, at the first second of 1970.
pub fn comment_at(moment: Option<(Date, u32)>) -> (comment: String)
    ensures
        comment@ == conversion_text(moment_text(moment)),
{
    let stamp = match moment {
        Some((date, second)) => stamp_of(date, second),
        None => stamp_of(Date { year: 1970, month: 1, day: 1 }, 0),
    };
    let comment = String::from_str("IMD 1.18: ").concat(stamp.as_str()).concat(
        "\nConverted from IMG by rt11fs[1]\n[1]: https://porkrind.org/rt11fs\n",
    );
    assert(comment@ == conversion_text(stamp@));
    comment
}

/// The comment of an image that is made here, with the time on the clock
/// in universal time; where the clock shows no time, with the first second
/// of 1970.
fn conversion_comment() -> (comment: String)
    ensures
        stamped(comment@),
{
    let moment = crate::date::now();
    let comment = comment_at(moment);
    proof {
        match moment {
            Some((date, second)) => {
                assert(comment@ == conversion_text(stamp_text(date, second)));
            },
            None => {
                let date = Date { year: 1970, month: 1, day: 1 };
                assert(date.wf());
                assert(comment@ == conversion_text(stamp_text(date, 0)));
            },
        }
    }
    comment
}

fn geometry_ok(g: &Geometry) -> (b: bool)
    ensures
        b == g.wf(),
{
    if g.cylinders == 0 || g.heads == 0 || g.sectors == 0 {
        return false;
    }
    if code_of_size(g.sector_size).is_none() {
        return false;
    }
    let ghost c = g.cylinders as int;
    let ghost h = g.heads as int;
    let ghost s = g.sectors as int;
    let ghost z = g.sector_size as int;
    let ch = match g.cylinders.checked_mul(g.heads) {
        Some(x) => x,
        None => {
            proof {
                assert(c * h <= c * h * s * z) by (nonlinear_arith)
                    requires c > 0, h > 0, s > 0, z > 0;
            }
            return false;
        },
    };
    let chs = match ch.checked_mul(g.sectors) {
        Some(x) => x,
        None => {
            proof {
                assert(c * h * s <= c * h * s * z) by (nonlinear_arith)
                    requires c > 0, h > 0, s > 0, z > 0;
            }
            return false;
        },
    };
    chs.checked_mul(g.sector_size).is_some()
}

fn record_ok(s: &Sector, size: usize) -> (b: bool)
    ensures
        b == record_sized(s@, size),
{
    match &s.data {
        SectorData::Unavailable => true,
        SectorData::Normal(d) => d.len() == size,
        SectorData::Compressed(_, n) => *n == size,
    }
}

fn track_ok(t: &Track, g: &Geometry) -> (b: bool)
    requires
        g.sectors <= 255,
    ensures
        b == track_wf(t@, *g),
{
    let n = g.sectors;
    if t.sector_count as usize != n || t.sector_size != g.sector_size || t.sector_map.len() != n
        || t.sector_data.len() != n {
        return false;
    }
    let ghost v = t@;
    let mut i: usize = 0;
    while i < n
        invariant
            i <= n,
            n == g.sectors,
            n <= 255,
            v == t@,
            t.sector_map@.len() == n,
            t.sector_data@.len() == n,
            forall|s: int| 0 <= s < i ==> 1 <= #[trigger] v.sector_map[s] <= n,
            forall|a: int, b: int| 0 <= a < b < i ==> #[trigger] v.sector_map[a] != #[trigger] v.sector_map[b],
            forall|k: int| 0 <= k < i ==> record_sized(#[trigger] v.sector_data[k], g.sector_size),
        decreases n - i,
    {
        let m = t.sector_map[i];
        assert(v.sector_data[i as int] == t.sector_data@[i as int]@);
        if m < 1 || m as usize > n || !record_ok(&t.sector_data[i], g.sector_size) {
            return false;
        }
        let mut a: usize = 0;
        while a < i
            invariant
                a <= i,
                i < n,
                v == t@,
                t.sector_map@.len() == n,
                m == v.sector_map[i as int],
                forall|x: int| 0 <= x < a ==> #[trigger] v.sector_map[x] != m,
            decreases i - a,
        {
            if t.sector_map[a] == m {
                return false;
            }
            a += 1;
        }
        i += 1;
    }
    true
}

/// A track whose sectors are numbered in their order and hold the bytes of
/// `data` from byte `from` on.
fn blank_track(data: &[u8], from: usize, g: &Geometry, cylinder: u8, head: u8) -> (t: Track)
    requires
        g.wf(),
        g.sectors <= 255,
        from + g.sectors * g.sector_size <= data@.len(),
    ensures
        track_wf(t@, *g),
        t@ == fresh_track(data@, from as int, *g, cylinder, head),
        forall|k: int|
            0 <= k < g.sectors ==> sector_state(#[trigger] t@.sector_data[k]) == Ok::<Seq<u8>, Error>(
                data@.subrange(from + k * g.sector_size, from + (k + 1) * g.sector_size),
            ),
        forall|k: int| 0 <= k < g.sectors ==> #[trigger] t@.sector_map[k] == k + 1,
{
    let n = g.sectors;
    let size = g.sector_size;
    let total = data.len();
    let mut sector_map: Vec<u8> = Vec::new();
    let mut sector_data: Vec<Sector> = Vec::new();
    let mut k: usize = 0;
    while k < n
        invariant
            k <= n,
            n == g.sectors,
            n <= 255,
            size == g.sector_size,
            total == data@.len(),
            from + n * size <= total,
            sector_map@.len() == k,
            sector_data@.len() == k,
            forall|j: int| 0 <= j < k ==> #[trigger] sector_map@[j] == j + 1,
            forall|j: int|
                0 <= j < k ==> sector_state(#[trigger] sector_data@[j]@) == Ok::<Seq<u8>, Error>(
                    data@.subrange(from + j * size, from + (j + 1) * size),
                ) && record_sized(sector_data@[j]@, size) && sector_data@[j]@ == record_of(
                    data@.subrange(from + j * size, from + (j + 1) * size),
                    size,
                ),
        decreases n - k,
    {
        proof {
            assert(k * size + size == (k + 1) * size) by (nonlinear_arith);
            assert((k + 1) * size <= n * size) by (nonlinear_arith)
                requires k + 1 <= n, size >= 0;
            assert(0 <= k * size) by (nonlinear_arith)
                requires k >= 0, size >= 0;
            lemma_record_state(data@.subrange(from + k * size, from + (k + 1) * size), size);
        }
        let part = vstd::slice::slice_subrange(data, from + k * size, from + k * size + size);
        sector_data.push(Sector::holding(part, size));
        sector_map.push((k + 1) as u8);
        k += 1;
    }
    let t = Track {
        mode: Mode::M250kbitsFM,
        cylinder,
        head,
        sector_count: n as u8,
        sector_size: size,
        sector_map,
        sector_data,
    };
    proof {
        assert forall|j: int| 0 <= j < n implies record_sized(#[trigger] t@.sector_data[j], size) && sector_state(
            t@.sector_data[j],
        ) == Ok::<Seq<u8>, Error>(data@.subrange(from + j * size, from + (j + 1) * size)) by {
            assert(t@.sector_data[j] == t.sector_data@[j]@);
        }
        let f = fresh_track(data@, from as int, *g, cylinder, head);
        assert(t@.sector_map =~= f.sector_map);
        assert(t@.sector_data =~= f.sector_data);
    }
    t
}

impl PhysicalBlockDevice for IMD {
    open spec fn wf(&self) -> bool {
        imd_wf(self@)
    }

    open spec fn geometry_spec(&self) -> Geometry {
        self.geometry
    }

    open spec fn contents(&self) -> Seq<SectorState> {
        imd_contents(self@)
    }

    open spec fn serialized(&self) -> SectorState {
        imd_bytes(self.comment@, track_views(self.track@))
    }

    open spec fn can_hold(geometry: Geometry) -> bool {
        imd_can_hold(geometry)
    }

    proof fn lemma_wf(&self) {
        let v = self@;
        let ss = v.geometry.sectors as int;
        let c = imd_contents(v);
        assert forall|i: int| 0 <= i < c.len() implies (#[trigger] c[i] matches Ok(d) ==> d.len()
            == v.geometry.sector_size) by {
            lemma_div_mod(i, ss, v.track.len() as int);
            let t = v.track[i / ss];
            assert(track_wf(t, v.geometry));
            let m = t.sector_map[i % ss];
            assert(1 <= m <= ss);
            assert(record_sized(t.sector_data[m - 1], v.geometry.sector_size));
        }
        assert(sectors_sized(self.contents(), self.geometry_spec().sector_size as int));
    }

    fn geometry(&self) -> (g: &Geometry) {
        &self.geometry
    }

    fn read_sector(&self, cylinder: usize, head: usize, sector: usize) -> (r: Result<Vec<u8>, Error>) {
        match self.locate(cylinder, head, sector) {
            None => Err(Error::OutOfRange),
            Some((t, k)) => {
                proof {
                    let v = self@;
                    lemma_place(t as int, k as int, v.geometry.sectors as int);
                    assert(v.track[t as int] == self.track@[t as int]@);
                    assert(track_wf(v.track[t as int], v.geometry));
                    assert(1 <= v.track[t as int].sector_map[k as int] <= v.geometry.sectors);
                    let m = self.track@[t as int].sector_map@[k as int];
                    assert(self.track@[t as int]@.sector_data[m - 1] == self.track@[t as int].sector_data@[m - 1]@);
                }
                let track = &self.track[t];
                track.sector_data[track.sector_map[k] as usize - 1].as_bytes()
            },
        }
    }

    fn write_sector(&mut self, cylinder: usize, head: usize, sector: usize, buf: &[u8]) -> (r: Result<
        (),
        Error,
    >)
        ensures
            final(self)@ == (if r is Ok {
                imd_written(
                    old(self)@,
                    old(self).geometry.linear(cylinder as int, head as int, sector as int),
                    buf@,
                )
            } else {
                old(self)@
            }),
    {
        if buf.len() != self.geometry.sector_size {
            return Err(Error::PartialSector);
        }
        let ghost v = self@;
        let ghost ss = v.geometry.sectors as int;
        match self.locate(cylinder, head, sector) {
            None => Err(Error::OutOfRange),
            Some((t, k)) => {
                proof {
                    lemma_place(t as int, k as int, ss);
                    assert(v.track[t as int] == self.track@[t as int]@);
                    assert(track_wf(v.track[t as int], v.geometry));
                    assert(1 <= v.track[t as int].sector_map[k as int] <= ss);
                    lemma_record_state(buf@, self.geometry.sector_size);
                }
                let raw = self.track[t].sector_map[k] as usize - 1;
                let size = self.track[t].sector_size;
                self.track[t].sector_data[raw] = Sector::holding(buf, size);
                proof {
                    let w = self@;
                    let lin = t * ss + k;
                    let old_track = v.track[t as int];
                    let new_track = w.track[t as int];
                    assert(new_track == self.track@[t as int]@);
                    assert(new_track.sector_data =~= old_track.sector_data.update(raw as int, record_of(buf@, size)));
                    assert forall|x: int| 0 <= x < w.track.len() implies track_wf(#[trigger] w.track[x], w.geometry) by {
                        assert(track_wf(v.track[x], v.geometry));
                        if x != t {
                            assert(w.track[x] == v.track[x]);
                        } else {
                            assert forall|i: int| 0 <= i < new_track.sector_data.len() implies record_sized(
                                #[trigger] new_track.sector_data[i],
                                w.geometry.sector_size,
                            ) by {
                                if i != raw {
                                    assert(record_sized(old_track.sector_data[i], v.geometry.sector_size));
                                }
                            }
                        }
                    }
                    let a = imd_contents(w);
                    let b = imd_contents(v).update(lin, Ok(buf@));
                    assert(a.len() == b.len());
                    assert forall|i: int| 0 <= i < a.len() implies a[i] == b[i] by {
                        lemma_div_mod(i, ss, v.track.len() as int);
                        let ti = i / ss;
                        let ki = i % ss;
                        if ti != t {
                            assert(w.track[ti] == v.track[ti]);
                        } else if ki != k {
                            assert(track_wf(v.track[ti], v.geometry));
                            if ki < k {
                                assert(old_track.sector_map[ki] != old_track.sector_map[k as int]);
                            } else {
                                assert(old_track.sector_map[k as int] != old_track.sector_map[ki]);
                            }
                        }
                    }
                    assert(a =~= b);
                    assert(sector_at(imd_contents(v), lin) == imd_contents(v)[lin]);
                    assert(new_track.sector_map == old_track.sector_map);
                    assert(new_track == TrackView {
                        sector_data: old_track.sector_data.update(raw as int, record_of(buf@, size)),
                        ..old_track
                    });
                    assert(w.track =~= v.track.update(t as int, new_track));
                }
                Ok(())
            },
        }
    }

    fn as_vec(&self) -> (r: Result<Vec<u8>, Error>) {
        self.repr()
    }

    fn from_raw(data: Vec<u8>, geometry: Geometry) -> (dev: Self)
        ensures
            dev@ == fresh_image(data@, geometry, dev.comment@),
            stamped(dev.comment@),
    {
        IMD::with_comment(data.as_slice(), geometry, conversion_comment())
    }
}

pub proof fn lemma_sectors_bytes_concat(a: Seq<SectorView>, b: Seq<SectorView>)
    requires
        sectors_bytes(a) is Ok,
        sectors_bytes(b) is Ok,
    ensures
        sectors_bytes(a + b) == Ok::<Seq<u8>, Error>(sectors_bytes(a).unwrap() + sectors_bytes(b).unwrap()),
    decreases b.len(),
{
    if b.len() == 0 {
        assert(a + b =~= a);
        assert(sectors_bytes(a).unwrap() + Seq::<u8>::empty() =~= sectors_bytes(a).unwrap());
    } else {
        lemma_sectors_bytes_concat(a, b.drop_last());
        assert((a + b).drop_last() =~= a + b.drop_last());
        let x = sectors_bytes(a).unwrap();
        let y = sectors_bytes(b.drop_last()).unwrap();
        let z = sector_bytes(b.last()).unwrap();
        assert((x + y) + z =~= x + (y + z));
    }
}

pub proof fn lemma_tracks_bytes_concat(a: Seq<TrackView>, b: Seq<TrackView>)
    requires
        tracks_bytes(a) is Ok,
        tracks_bytes(b) is Ok,
    ensures
        tracks_bytes(a + b) == Ok::<Seq<u8>, Error>(tracks_bytes(a).unwrap() + tracks_bytes(b).unwrap()),
    decreases b.len(),
{
    if b.len() == 0 {
        assert(a + b =~= a);
        assert(tracks_bytes(a).unwrap() + Seq::<u8>::empty() =~= tracks_bytes(a).unwrap());
    } else {
        lemma_tracks_bytes_concat(a, b.drop_last());
        assert((a + b).drop_last() =~= a + b.drop_last());
        let x = tracks_bytes(a).unwrap();
        let y = tracks_bytes(b.drop_last()).unwrap();
        let z = track_bytes(b.last()).unwrap();
        assert((x + y) + z =~= x + (y + z));
    }
}

/// The bytes of a record that was read are the bytes that it was read
/// from.
pub proof fn lemma_sector_roundtrip(buf: Seq<u8>, at: int, size: usize)
    requires
        parsed_sector(buf, at, size) is Ok,
    ensures
        ({
            let (s, next) = parsed_sector(buf, at, size).unwrap();
            0 <= at < next <= buf.len() && sector_bytes(s) == Ok::<Seq<u8>, Error>(buf.subrange(at, next))
        }),
{
    let (s, next) = parsed_sector(buf, at, size).unwrap();
    let t = buf[at];
    if t == 0 {
        assert(seq![0u8] + Seq::<u8>::empty() =~= buf.subrange(at, next));
    } else if t % 2 == 1 {
        assert(seq![t] + buf.subrange(at + 1, at + 1 + size) =~= buf.subrange(at, next));
    } else {
        assert(seq![t] + seq![buf[at + 1]] =~= buf.subrange(at, next));
    }
}

pub proof fn lemma_sectors_roundtrip(buf: Seq<u8>, at: int, size: usize, n: nat)
    requires
        0 <= at <= buf.len(),
        parsed_sectors(buf, at, size, n) is Ok,
    ensures
        ({
            let (list, end) = parsed_sectors(buf, at, size, n).unwrap();
            at <= end <= buf.len() && sectors_bytes(list) == Ok::<Seq<u8>, Error>(buf.subrange(at, end))
        }),
    decreases n,
{
    if n == 0 {
        assert(buf.subrange(at, at) =~= Seq::<u8>::empty());
    } else {
        lemma_sector_roundtrip(buf, at, size);
        let (s, next) = parsed_sector(buf, at, size).unwrap();
        lemma_sectors_roundtrip(buf, next, size, (n - 1) as nat);
        let (rest, end) = parsed_sectors(buf, next, size, (n - 1) as nat).unwrap();
        assert(seq![s].drop_last() =~= Seq::<SectorView>::empty());
        assert(seq![s].last() == s);
        assert(sectors_bytes(Seq::<SectorView>::empty()) == Ok::<Seq<u8>, Error>(Seq::<u8>::empty()));
        assert(sectors_bytes(seq![s]) == Ok::<Seq<u8>, Error>(Seq::<u8>::empty() + buf.subrange(at, next)));
        lemma_sectors_bytes_concat(seq![s], rest);
        assert((Seq::<u8>::empty() + buf.subrange(at, next)) + buf.subrange(next, end) =~= buf.subrange(at, end));
    }
}

/// The bytes of a track that was read are the bytes that it was read from.
pub proof fn lemma_track_roundtrip(buf: Seq<u8>, at: int)
    requires
        parsed_track(buf, at) is Ok,
    ensures
        ({
            let (t, next) = parsed_track(buf, at).unwrap();
            0 <= at < next <= buf.len() && track_bytes(t) == Ok::<Seq<u8>, Error>(buf.subrange(at, next))
        }),
{
    let (t, next) = parsed_track(buf, at).unwrap();
    let count = buf[at + 3];
    let size = code_size(buf[at + 4]).unwrap();
    lemma_sectors_roundtrip(buf, at + 5 + count, size, count as nat);
    let records = buf.subrange(at + 5 + count, next);
    assert(size_code(size) == Some(buf[at + 4]));
    assert(mode_code(t.mode) == buf[at]);
    assert(seq![buf[at], buf[at + 1], buf[at + 2], buf[at + 3], buf[at + 4]] + buf.subrange(at + 5, at + 5 + count)
        + records =~= buf.subrange(at, next));
}

pub proof fn lemma_tracks_roundtrip(buf: Seq<u8>, at: int)
    requires
        0 <= at <= buf.len(),
        parsed_tracks(buf, at) is Ok,
    ensures
        tracks_bytes(parsed_tracks(buf, at).unwrap()) == Ok::<Seq<u8>, Error>(buf.subrange(at, buf.len() as int)),
    decreases buf.len() - at,
{
    if at >= buf.len() {
        assert(buf.subrange(at, buf.len() as int) =~= Seq::<u8>::empty());
    } else {
        lemma_track_roundtrip(buf, at);
        let (t, next) = parsed_track(buf, at).unwrap();
        lemma_tracks_roundtrip(buf, next);
        let rest = parsed_tracks(buf, next).unwrap();
        assert(seq![t].drop_last() =~= Seq::<TrackView>::empty());
        assert(seq![t].last() == t);
        assert(tracks_bytes(Seq::<TrackView>::empty()) == Ok::<Seq<u8>, Error>(Seq::<u8>::empty()));
        assert(tracks_bytes(seq![t]) == Ok::<Seq<u8>, Error>(Seq::<u8>::empty() + buf.subrange(at, next)));
        lemma_tracks_bytes_concat(seq![t], rest);
        assert((Seq::<u8>::empty() + buf.subrange(at, next)) + buf.subrange(next, buf.len() as int) =~= buf.subrange(
            at,
            buf.len() as int,
        ));
    }
}

pub proof fn lemma_comment_end(buf: Seq<u8>, from: int)
    requires
        0 <= from <= buf.len(),
    ensures
        from <= comment_end(buf, from) <= buf.len(),
        comment_end(buf, from) < buf.len() ==> buf[comment_end(buf, from)] == 0x1A,
    decreases buf.len() - from,
{
    if from < buf.len() && buf[from] != 0x1A {
        lemma_comment_end(buf, from + 1);
    }
}

/// The bytes of an image that was read are the bytes that it was read
/// from.
pub proof fn lemma_imd_roundtrip(buf: Seq<u8>)
    requires
        parsed_imd(buf) is Ok,
    ensures
        imd_bytes(parsed_imd(buf).unwrap().comment, parsed_imd(buf).unwrap().track) == Ok::<Seq<u8>, Error>(buf),
{
    let end = comment_end(buf, 0);
    lemma_comment_end(buf, 0);
    lemma_tracks_roundtrip(buf, end + 1);
    vstd::utf8::decode_utf8_encode_utf8(buf.subrange(0, end));
    assert(buf.subrange(0, end) + seq![0x1Au8] + buf.subrange(end + 1, buf.len() as int) =~= buf);
}

} // verus!
