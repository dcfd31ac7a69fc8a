use vstd::prelude::*;
use crate::error::Error;

pub mod img;
pub mod flat;
pub mod rx;
pub mod imd;
pub mod laws;

verus! {

/// Filesystem blocks are 512 bytes, whatever the sector size of the medium.
pub const BLOCK_SIZE: usize = 512;

/// What reading one sector gives: its bytes, or the reason it cannot be read.
pub type SectorState = Result<Seq<u8>, Error>;

/// Cylinders, heads, sectors per track and bytes per sector.
#[derive(Clone, Copy, Debug, PartialEq, Eq, Structural)]
pub struct Geometry {
    pub cylinders: usize,
    pub heads: usize,
    pub sectors: usize,
    pub sector_size: usize,
}

pub open spec fn valid_sector_size(n: int) -> bool {
    n == 128 || n == 256 || n == 512 || n == 1024 || n == 2048 || n == 4096 || n == 8192
}

impl Geometry {
    /// All four numbers are non-zero, the sector size is one of the seven
    /// powers of two from 128 to 8192, and the total fits the machine word.
    pub open spec fn wf(&self) -> bool {
        &&& self.cylinders > 0
        &&& self.heads > 0
        &&& self.sectors > 0
        &&& valid_sector_size(self.sector_size as int)
        &&& self.bytes_spec() <= usize::MAX
    }

    pub open spec fn sectors_spec(&self) -> int {
        self.cylinders * self.heads * self.sectors
    }

    pub open spec fn bytes_spec(&self) -> int {
        self.cylinders * self.heads * self.sectors * self.sector_size
    }

    /// Position of sector `(c, h, s)` in cylinder-major order.
    pub open spec fn linear(&self, c: int, h: int, s: int) -> int {
        (c * self.heads + h) * self.sectors + s
    }

    pub proof fn lemma_sizes(&self)
        requires
            self.wf(),
        ensures
            0 < self.heads * self.sectors <= self.sectors_spec() <= self.bytes_spec() <= usize::MAX,
            self.cylinders * self.heads <= self.sectors_spec(),
    {
        let c = self.cylinders as int;
        let h = self.heads as int;
        let s = self.sectors as int;
        let z = self.sector_size as int;
        assert(0 < h * s) by (nonlinear_arith)
            requires h > 0, s > 0;
        assert(h * s <= c * h * s) by (nonlinear_arith)
            requires c > 0, h > 0, s > 0;
        assert(c * h <= c * h * s) by (nonlinear_arith)
            requires c > 0, h > 0, s > 0;
        assert(c * h * s <= c * h * s * z) by (nonlinear_arith)
            requires c > 0, h > 0, s > 0, z > 0;
    }

    /// Number of sectors on the medium.
    pub fn sectors(&self) -> (n: usize)
        requires
            self.wf(),
        ensures
            n == self.sectors_spec(),
    {
        proof { self.lemma_sizes(); }
        self.cylinders * self.heads * self.sectors
    }

    /// Number of bytes on the medium.
    pub fn bytes(&self) -> (n: usize)
        requires
            self.wf(),
        ensures
            n == self.bytes_spec(),
    {
        proof { self.lemma_sizes(); }
        self.sectors() * self.sector_size
    }
}


/// The view of what a read returned.
pub open spec fn read_view(r: Result<Vec<u8>, Error>) -> SectorState {
    match r {
        Ok(v) => Ok(v@),
        Err(e) => Err(e),
    }
}

/// State of sector `i`; past the end there is nothing to read.
pub open spec fn sector_at(contents: Seq<SectorState>, i: int) -> SectorState {
    if 0 <= i < contents.len() {
        contents[i]
    } else {
        Err(Error::OutOfRange)
    }
}

/// Every readable sector holds exactly `size` bytes.
pub open spec fn sectors_sized(contents: Seq<SectorState>, size: int) -> bool {
    forall|i: int| 0 <= i < contents.len() ==> (#[trigger] contents[i] matches Ok(v) ==> v.len() == size)
}

/// The sectors `lo..hi` one after the other, or the error of the first one
/// that cannot be read.
pub open spec fn read_range(contents: Seq<SectorState>, lo: int, hi: int) -> SectorState
    decreases hi - lo,
{
    if lo >= hi {
        Ok(Seq::empty())
    } else {
        match read_range(contents, lo, hi - 1) {
            Err(e) => Err(e),
            Ok(head) => match sector_at(contents, hi - 1) {
                Err(e) => Err(e),
                Ok(last) => Ok(head + last),
            },
        }
    }
}

/// What writing `data` to sector `i` answers, and what the sectors hold
/// afterwards: the data must be one sector long and the sector must exist.
/// A sector whose state is `Err(OutOfRange)` does not exist, wherever it is.
pub open spec fn write_sector_spec(contents: Seq<SectorState>, size: int, i: int, data: Seq<u8>) -> (
    Result<(), Error>,
    Seq<SectorState>,
) {
    if data.len() != size {
        (Err(Error::PartialSector), contents)
    } else if sector_at(contents, i) == Err::<Seq<u8>, Error>(Error::OutOfRange) {
        (Err(Error::OutOfRange), contents)
    } else {
        (Ok(()), contents.update(i, Ok(data)))
    }
}

/// `data` cut into sectors of `size` bytes and written from sector `lo` on,
/// `n` of them, stopping at the first sector that does not exist.
pub open spec fn write_range(contents: Seq<SectorState>, size: int, lo: int, n: int, data: Seq<u8>) -> (
    Result<(), Error>,
    Seq<SectorState>,
)
    decreases n,
{
    if n <= 0 {
        (Ok(()), contents)
    } else {
        let before = write_range(contents, size, lo, n - 1, data);
        match before.0 {
            Err(e) => before,
            Ok(_) => write_sector_spec(
                before.1,
                size,
                lo + n - 1,
                data.subrange((n - 1) * size, n * size),
            ),
        }
    }
}

/// How many of the `n` sectors `write_range` writes before it stops.
pub open spec fn written_count(contents: Seq<SectorState>, size: int, lo: int, n: int, data: Seq<u8>) -> int
    decreases n,
{
    if n <= 0 {
        0
    } else if write_range(contents, size, lo, n, data).0 is Ok {
        n
    } else {
        written_count(contents, size, lo, n - 1, data)
    }
}

/// The sectors of a medium after a write of `data` to the place `at`
/// that answered `r`: written where it succeeded, else as they were.
pub open spec fn medium_written(medium: Seq<SectorState>, r: Result<(), Error>, at: int, data: Seq<u8>) -> Seq<
    SectorState,
> {
    if r is Ok {
        medium.update(at, Ok(data))
    } else {
        medium
    }
}

/// The sectors of a medium after the first `n` sectors of `data` were
/// written, number `i` of them at the place `places[i]`.
pub open spec fn medium_range(medium: Seq<SectorState>, places: Seq<int>, size: int, n: int, data: Seq<u8>) -> Seq<
    SectorState,
>
    decreases n,
{
    if n <= 0 {
        medium
    } else {
        medium_range(medium, places, size, n - 1, data).update(
            places[n - 1],
            Ok(data.subrange((n - 1) * size, n * size)),
        )
    }
}

/// The sectors of a medium after `count` blocks from `data` were written
/// at block `block` of the device on it, whose sectors were `contents`:
/// the sectors that `write_blocks_spec` writes before it stops, number `i`
/// of them at the place `places[i]`.
pub open spec fn write_blocks_medium(
    medium: Seq<SectorState>,
    contents: Seq<SectorState>,
    places: Seq<int>,
    size: int,
    block: int,
    count: int,
    data: Seq<u8>,
) -> Seq<SectorState> {
    let n = count * 512 / size;
    if data.len() < n * size {
        medium
    } else {
        medium_range(medium, places, size, written_count(contents, size, block * 512 / size, n, data), data)
    }
}

/// `write_range` writes `m` sectors where it succeeds with `m` of them and
/// fails with one more.
pub proof fn lemma_written_count(contents: Seq<SectorState>, size: int, lo: int, m: int, n: int, data: Seq<u8>)
    requires
        0 <= m <= n,
        write_range(contents, size, lo, m, data).0 is Ok,
        m < n ==> write_range(contents, size, lo, m + 1, data).0 is Err,
    ensures
        written_count(contents, size, lo, n, data) == m,
    decreases n - m,
{
    if m < n {
        lemma_write_range_error(contents, size, lo, m + 1, n, data);
        lemma_written_count(contents, size, lo, m, n - 1, data);
    }
}

pub proof fn lemma_read_range_error(contents: Seq<SectorState>, lo: int, mid: int, hi: int)
    requires
        lo <= mid <= hi,
        read_range(contents, lo, mid) is Err,
    ensures
        read_range(contents, lo, hi) == read_range(contents, lo, mid),
    decreases hi - mid,
{
    if mid < hi {
        lemma_read_range_error(contents, lo, mid, hi - 1);
    }
}

pub proof fn lemma_read_range_len(contents: Seq<SectorState>, size: int, lo: int, hi: int)
    requires
        sectors_sized(contents, size),
        0 <= lo <= hi,
        size >= 0,
    ensures
        read_range(contents, lo, hi) matches Ok(v) ==> v.len() == (hi - lo) * size && (lo < hi ==> hi <= contents.len()),
    decreases hi - lo,
{
    if lo < hi {
        lemma_read_range_len(contents, size, lo, hi - 1);
        assert((hi - 1 - lo) * size + size == (hi - lo) * size) by (nonlinear_arith);
    } else {
        assert((hi - lo) * size == 0) by (nonlinear_arith)
            requires hi - lo == 0;
    }
}

pub proof fn lemma_write_range_error(contents: Seq<SectorState>, size: int, lo: int, m: int, n: int, data: Seq<u8>)
    requires
        0 <= m <= n,
        write_range(contents, size, lo, m, data).0 is Err,
    ensures
        write_range(contents, size, lo, n, data) == write_range(contents, size, lo, m, data),
    decreases n - m,
{
    if m < n {
        lemma_write_range_error(contents, size, lo, m, n - 1, data);
    }
}

pub proof fn lemma_write_range_sized(contents: Seq<SectorState>, size: int, lo: int, n: int, data: Seq<u8>)
    requires
        sectors_sized(contents, size),
        0 <= n,
        size > 0,
        n * size <= data.len(),
    ensures
        sectors_sized(write_range(contents, size, lo, n, data).1, size),
        write_range(contents, size, lo, n, data).1.len() == contents.len(),
    decreases n,
{
    if n > 0 {
        assert((n - 1) * size + size == n * size) by (nonlinear_arith);
        assert(0 <= (n - 1) * size) by (nonlinear_arith)
            requires n >= 1, size > 0;
        lemma_write_range_sized(contents, size, lo, n - 1, data);
    }
}

/// The first sector and the sector after the last of `count` blocks from
/// block `block` on, on a device with sectors of `size` bytes.
pub open spec fn block_span(size: int, block: int, count: int) -> (int, int) {
    (block * 512 / size, (block + count) * 512 / size)
}

/// What writing `count` blocks from `data` at block `block` answers, and
/// what the sectors hold afterwards.
pub open spec fn write_blocks_spec(contents: Seq<SectorState>, size: int, block: int, count: int, data: Seq<u8>) -> (
    Result<(), Error>,
    Seq<SectorState>,
) {
    let n = count * 512 / size;
    if data.len() < n * size {
        (Err(Error::PartialSector), contents)
    } else {
        write_range(contents, size, block * 512 / size, n, data)
    }
}

/// What reading `count` blocks at block `block` gives.
pub open spec fn read_blocks_spec(contents: Seq<SectorState>, size: int, block: int, count: int) -> SectorState {
    read_range(contents, block_span(size, block, count).0, block_span(size, block, count).1)
}

/// A device addressed by one sector number, in blocks of 512 bytes.
pub trait BlockDevice: Sized {
    type Physical: PhysicalBlockDevice;

    /// The value is consistent and can be used as a device.
    spec fn wf(&self) -> bool;

    spec fn sector_size_spec(&self) -> int;

    /// The sectors of the device, by their number.
    spec fn contents(&self) -> Seq<SectorState>;

    proof fn lemma_wf(&self)
        requires
            self.wf(),
        ensures
            self.sector_size_spec() > 0,
            self.contents().len() * self.sector_size_spec() <= usize::MAX,
            sectors_sized(self.contents(), self.sector_size_spec()),
    ;

    /// Reads `count` blocks from block `block` on: the sectors
    /// `block * 512 / size .. (block + count) * 512 / size`.
    fn read_blocks(&self, block: usize, count: usize) -> (r: Result<Vec<u8>, Error>)
        requires
            self.wf(),
        ensures
            read_view(r) == read_blocks_spec(self.contents(), self.sector_size_spec(), block as int, count as int),
    {
        proof { self.lemma_wf(); }
        let size = self.sector_size() as u128;
        let total = self.sectors();
        let lo = block as u128 * 512 / size;
        let hi = (block as u128 + count as u128) * 512 / size;
        let mut buf: Vec<u8> = Vec::new();
        assert(buf@ =~= Seq::<u8>::empty());
        if lo >= hi {
            return Ok(buf);
        }
        if lo >= total as u128 {
            proof {
                lemma_read_range_first(self.contents(), lo as int, hi as int);
            }
            return Err(Error::OutOfRange);
        }
        let mut s: usize = lo as usize;
        while (s as u128) < hi
            invariant
                self.wf(),
                total == self.contents().len(),
                lo <= s <= hi,
                s <= total,
                (lo as int, hi as int) == block_span(self.sector_size_spec(), block as int, count as int),
                read_range(self.contents(), lo as int, s as int) == Ok::<Seq<u8>, Error>(buf@),
            decreases hi - s,
        {
            match self.read_sector(s) {
                Ok(data) => {
                    let mut data = data;
                    buf.append(&mut data);
                },
                Err(e) => {
                    proof {
                        assert(read_range(self.contents(), lo as int, s + 1) == Err::<Seq<u8>, Error>(e));
                        lemma_read_range_error(self.contents(), lo as int, s + 1, hi as int);
                    }
                    return Err(e);
                },
            }
            s += 1;
        }
        Ok(buf)
    }

    /// Writes `blocks` blocks from `buf` at block `block`: the sectors from
    /// `block * 512 / size` on, `blocks * 512 / size` of them.
    fn write_blocks(&mut self, block: usize, blocks: usize, buf: &[u8]) -> (r: Result<(), Error>)
        requires
            old(self).wf(),
        ensures
            final(self).wf(),
            final(self).sector_size_spec() == old(self).sector_size_spec(),
            final(self).contents().len() == old(self).contents().len(),
            (r, final(self).contents()) == write_blocks_spec(
                old(self).contents(),
                old(self).sector_size_spec(),
                block as int,
                blocks as int,
                buf@,
            ),
            final(self).physical_spec().geometry_spec() == old(self).physical_spec().geometry_spec(),
            forall|s: int| #[trigger] final(self).medium_sector(s) == old(self).medium_sector(s),
            final(self).physical_spec().contents() == write_blocks_medium(
                old(self).physical_spec().contents(),
                old(self).contents(),
                Seq::new(
                    (blocks * 512 / old(self).sector_size_spec()) as nat,
                    |i: int| old(self).medium_sector(block * 512 / old(self).sector_size_spec() + i),
                ),
                old(self).sector_size_spec(),
                block as int,
                blocks as int,
                buf@,
            ),
    {
        proof { self.lemma_wf(); }
        let size = self.sector_size();
        let total = self.sectors();
        let n128 = blocks as u128 * 512 / (size as u128);
        assert(n128 * size <= blocks * 512) by (nonlinear_arith)
            requires n128 == blocks * 512 / (size as int), size > 0, blocks >= 0;
        if (buf.len() as u128) < n128 * (size as u128) {
            return Err(Error::PartialSector);
        }
        assert(n128 <= n128 * size) by (nonlinear_arith)
            requires size >= 1, n128 >= 0;
        let n = n128 as usize;
        let lo128 = block as u128 * 512 / (size as u128);
        if n == 0 {
            return Ok(());
        }
        proof {
            assert(1 * size <= n * size) by (nonlinear_arith)
                requires n >= 1, size >= 1;
        }
        if lo128 >= total as u128 {
            proof {
                assert(write_range(self.contents(), size as int, lo128 as int, 0, buf@).0 is Ok);
                assert(write_range(self.contents(), size as int, lo128 as int, 1, buf@).0 is Err);
                lemma_write_range_error(self.contents(), size as int, lo128 as int, 1, n as int, buf@);
                lemma_written_count(self.contents(), size as int, lo128 as int, 0, n as int, buf@);
            }
            return Err(Error::OutOfRange);
        }
        let lo = lo128 as usize;
        let ghost places = Seq::new(
            (blocks * 512 / old(self).sector_size_spec()) as nat,
            |i: int| old(self).medium_sector(block * 512 / old(self).sector_size_spec() + i),
        );
        let mut s: usize = 0;
        while s < n
            invariant
                self.wf(),
                self.physical_spec().geometry_spec() == old(self).physical_spec().geometry_spec(),
                forall|x: int| #[trigger] self.medium_sector(x) == old(self).medium_sector(x),
                places == Seq::new(
                    (blocks * 512 / old(self).sector_size_spec()) as nat,
                    |i: int| old(self).medium_sector(block * 512 / old(self).sector_size_spec() + i),
                ),
                self.physical_spec().contents() == medium_range(
                    old(self).physical_spec().contents(),
                    places,
                    size as int,
                    s as int,
                    buf@,
                ),
                size == self.sector_size_spec(),
                size == old(self).sector_size_spec(),
                size > 0,
                total == self.contents().len(),
                total == old(self).contents().len(),
                total * size <= usize::MAX,
                s <= n,
                lo + s <= total,
                lo == block * 512 / (size as int),
                n == blocks * 512 / (size as int),
                n * size <= buf@.len() <= usize::MAX,
                (Ok::<(), Error>(()), self.contents()) == write_range(old(self).contents(), size as int, lo as int, s as int, buf@),
            decreases n - s,
        {
            proof {
                assert(s * size + size == (s + 1) * size) by (nonlinear_arith);
                assert((s + 1) * size <= n * size) by (nonlinear_arith)
                    requires s + 1 <= n, size >= 1;
                assert(0 <= s * size) by (nonlinear_arith)
                    requires s >= 0, size >= 1;
            }
            let part = vstd::slice::slice_subrange(buf, s * size, s * size + size);
            match self.write_sector(lo + s, part) {
                Ok(()) => {},
                Err(e) => {
                    proof {
                        lemma_write_range_error(old(self).contents(), size as int, lo as int, s + 1, n as int, buf@);
                        lemma_written_count(old(self).contents(), size as int, lo as int, s as int, n as int, buf@);
                    }
                    return Err(e);
                },
            }
            s += 1;
        }
        Ok(())
    }

    /// Number of whole blocks on the device.
    fn blocks(&self) -> (n: usize)
        requires
            self.wf(),
        ensures
            n == self.contents().len() * self.sector_size_spec() / 512,
    {
        proof { self.lemma_wf(); }
        self.sectors() * self.sector_size() / BLOCK_SIZE
    }

    /// Reads the sector with the given number.
    fn read_sector(&self, sector: usize) -> (r: Result<Vec<u8>, Error>)
        requires
            self.wf(),
        ensures
            read_view(r) == sector_at(self.contents(), sector as int),
    ;

    /// Replaces the sector with the given number by `buf`.
    fn write_sector(&mut self, sector: usize, buf: &[u8]) -> (r: Result<(), Error>)
        requires
            old(self).wf(),
        ensures
            final(self).wf(),
            final(self).sector_size_spec() == old(self).sector_size_spec(),
            (r, final(self).contents()) == write_sector_spec(
                old(self).contents(),
                old(self).sector_size_spec(),
                sector as int,
                buf@,
            ),
            final(self).physical_spec().geometry_spec() == old(self).physical_spec().geometry_spec(),
            forall|s: int| #[trigger] final(self).medium_sector(s) == old(self).medium_sector(s),
            final(self).physical_spec().contents() == medium_written(
                old(self).physical_spec().contents(),
                r,
                old(self).medium_sector(sector as int),
                buf@,
            ),
    ;

    fn sector_size(&self) -> (n: usize)
        requires
            self.wf(),
        ensures
            n == self.sector_size_spec(),
    ;

    fn sectors(&self) -> (n: usize)
        requires
            self.wf(),
        ensures
            n == self.contents().len(),
    ;

    /// The medium underneath.
    spec fn physical_spec(&self) -> Self::Physical;

    /// The position on the medium, in its cylinder-major order, of the
    /// sector with the given number.
    spec fn medium_sector(&self, sector: int) -> int;

    /// A sector of the device is the sector of the medium at its place.
    proof fn lemma_medium(&self, sector: int)
        requires
            self.wf(),
            0 <= sector < self.contents().len(),
        ensures
            self.contents()[sector] == sector_at(self.physical_spec().contents(), self.medium_sector(sector)),
    ;

    /// The medium underneath.
    fn physical_device(&self) -> (dev: &Self::Physical)
        requires
            self.wf(),
        ensures
            dev.wf(),
            *dev == self.physical_spec(),
    ;
}

pub proof fn lemma_read_range_first(contents: Seq<SectorState>, lo: int, hi: int)
    requires
        lo < hi,
        sector_at(contents, lo) matches Err(e),
    ensures
        read_range(contents, lo, hi) == sector_at(contents, lo),
{
    assert(read_range(contents, lo, lo) is Ok);
    assert(read_range(contents, lo, lo + 1) == sector_at(contents, lo));
    lemma_read_range_error(contents, lo, lo + 1, hi);
}

/// A medium addressed by cylinder, head and sector.
pub trait PhysicalBlockDevice: Sized {
    /// The value is consistent and can be used as a device.
    spec fn wf(&self) -> bool;

    spec fn geometry_spec(&self) -> Geometry;

    /// The sectors that can be addressed, in cylinder-major order.
    spec fn contents(&self) -> Seq<SectorState>;

    /// The bytes of the container file that holds this device.
    spec fn serialized(&self) -> SectorState;

    proof fn lemma_wf(&self)
        requires
            self.wf(),
        ensures
            self.geometry_spec().wf(),
            sectors_sized(self.contents(), self.geometry_spec().sector_size as int),
    ;

    fn geometry(&self) -> (g: &Geometry)
        requires
            self.wf(),
        ensures
            *g == self.geometry_spec(),
    ;

    fn total_bytes(&self) -> (n: usize)
        requires
            self.wf(),
        ensures
            n == self.geometry_spec().bytes_spec(),
    {
        proof { self.lemma_wf(); }
        self.geometry().bytes()
    }

    /// Reads the sector at `(cylinder, head, sector)`.
    fn read_sector(&self, cylinder: usize, head: usize, sector: usize) -> (r: Result<Vec<u8>, Error>)
        requires
            self.wf(),
        ensures
            read_view(r) == sector_at(
                self.contents(),
                self.geometry_spec().linear(cylinder as int, head as int, sector as int),
            ),
    ;

    /// Replaces the sector at `(cylinder, head, sector)` by `buf`.
    fn write_sector(&mut self, cylinder: usize, head: usize, sector: usize, buf: &[u8]) -> (r: Result<
        (),
        Error,
    >)
        requires
            old(self).wf(),
        ensures
            final(self).wf(),
            final(self).geometry_spec() == old(self).geometry_spec(),
            (r, final(self).contents()) == write_sector_spec(
                old(self).contents(),
                old(self).geometry_spec().sector_size as int,
                old(self).geometry_spec().linear(cylinder as int, head as int, sector as int),
                buf@,
            ),
    ;

    /// The container file that holds this device.
    fn as_vec(&self) -> (r: Result<Vec<u8>, Error>)
        requires
            self.wf(),
        ensures
            read_view(r) == self.serialized(),
    ;

    /// The container can hold a medium of this geometry.
    spec fn can_hold(geometry: Geometry) -> bool;

    /// A device of the given geometry that holds `data`, cylinder-major.
    fn from_raw(data: Vec<u8>, geometry: Geometry) -> (dev: Self)
        requires
            geometry.wf(),
            Self::can_hold(geometry),
            data@.len() == geometry.bytes_spec(),
        ensures
            dev.wf(),
            dev.geometry_spec() == geometry,
            dev.contents() == sectors_of(data@, geometry.sector_size as int),
    ;

    /// The geometry and every sector of it, cylinder-major.
    fn to_raw(&self) -> (r: Result<(Geometry, Vec<u8>), Error>)
        requires
            self.wf(),
        ensures
            match read_range(self.contents(), 0, self.geometry_spec().sectors_spec()) {
                Ok(bytes) => r matches Ok(pair) && pair.0 == self.geometry_spec() && pair.1@ == bytes,
                Err(e) => r == Err::<(Geometry, Vec<u8>), Error>(e),
            },
    {
        proof { self.lemma_wf(); }
        let g = *self.geometry();
        proof { g.lemma_sizes(); }
        let mut raw: Vec<u8> = Vec::new();
        let mut c: usize = 0;
        assert(g.linear(0, 0, 0) == 0) by (nonlinear_arith);
        assert(raw@ =~= Seq::<u8>::empty());
        while c < g.cylinders
            invariant
                self.wf(),
                g == self.geometry_spec(),
                g.wf(),
                c <= g.cylinders,
                read_range(self.contents(), 0, g.linear(c as int, 0, 0)) == Ok::<Seq<u8>, Error>(raw@),
            decreases g.cylinders - c,
        {
            let mut h: usize = 0;
            while h < g.heads
                invariant
                    self.wf(),
                    g == self.geometry_spec(),
                    g.wf(),
                    c < g.cylinders,
                    h <= g.heads,
                    read_range(self.contents(), 0, g.linear(c as int, h as int, 0)) == Ok::<Seq<u8>, Error>(raw@),
                decreases g.heads - h,
            {
                let mut s: usize = 0;
                while s < g.sectors
                    invariant
                        self.wf(),
                        g == self.geometry_spec(),
                        g.wf(),
                        c < g.cylinders,
                        h < g.heads,
                        s <= g.sectors,
                        read_range(self.contents(), 0, g.linear(c as int, h as int, s as int)) == Ok::<Seq<u8>, Error>(raw@),
                    decreases g.sectors - s,
                {
                    proof {
                        lemma_linear_bound(g, c as int, h as int, s as int);
                    }
                    match self.read_sector(c, h, s) {
                        Ok(data) => {
                            let mut data = data;
                            raw.append(&mut data);
                        },
                        Err(e) => {
                            proof {
                                lemma_read_range_error(
                                    self.contents(),
                                    0,
                                    g.linear(c as int, h as int, s as int) + 1,
                                    g.sectors_spec(),
                                );
                            }
                            return Err(e);
                        },
                    }
                    s += 1;
                }
                assert(g.linear(c as int, h as int, g.sectors as int) == g.linear(c as int, h + 1, 0)) by (nonlinear_arith);
                h += 1;
            }
            assert(g.linear(c as int, g.heads as int, 0) == g.linear(c + 1, 0, 0)) by (nonlinear_arith);
            c += 1;
        }
        assert(g.linear(g.cylinders as int, 0, 0) == g.sectors_spec()) by (nonlinear_arith);
        Ok((g, raw))
    }
}

/// `data` cut into sectors of `size` bytes; a last part that is shorter is
/// not a sector.
pub open spec fn sectors_of(data: Seq<u8>, size: int) -> Seq<SectorState> {
    Seq::new(
        if size > 0 { (data.len() as int / size) as nat } else { 0 },
        |i: int| Ok(data.subrange(i * size, (i + 1) * size)),
    )
}

/// A device made from raw bytes gives the same bytes back: the sectors
/// that `data` is cut into, read one after the other, are `data`.
pub proof fn lemma_raw_roundtrip(data: Seq<u8>, g: Geometry)
    requires
        g.wf(),
        data.len() == g.bytes_spec(),
    ensures
        read_range(sectors_of(data, g.sector_size as int), 0, g.sectors_spec()) == Ok::<Seq<u8>, Error>(data),
{
    let size = g.sector_size as int;
    let n = g.sectors_spec();
    g.lemma_sizes();
    assert(data.len() / (size as nat) == n) by (nonlinear_arith)
        requires data.len() == n * size, size > 0;
    lemma_raw_prefix(data, size, n);
    assert(data.subrange(0, n * size) =~= data);
}

proof fn lemma_raw_prefix(data: Seq<u8>, size: int, k: int)
    requires
        size > 0,
        0 <= k <= (data.len() as int) / size,
    ensures
        0 <= k * size <= data.len(),
        read_range(sectors_of(data, size), 0, k) == Ok::<Seq<u8>, Error>(data.subrange(0, k * size)),
    decreases k,
{
    if k > 0 {
        lemma_raw_prefix(data, size, k - 1);
        img::lemma_sector_bounds(data.len() as int, size, k - 1);
        assert(data.subrange(0, (k - 1) * size) + data.subrange((k - 1) * size, k * size) =~= data.subrange(
            0,
            k * size,
        ));
    } else {
        assert(data.subrange(0, 0) =~= Seq::<u8>::empty());
    }
}

pub proof fn lemma_linear_bound(g: Geometry, c: int, h: int, s: int)
    requires
        g.wf(),
        0 <= c < g.cylinders,
        0 <= h < g.heads,
        0 <= s < g.sectors,
    ensures
        0 <= g.linear(c, h, s) < g.sectors_spec(),
{
    let hh = g.heads as int;
    let ss = g.sectors as int;
    let cc = g.cylinders as int;
    assert(0 <= c * hh + h <= cc * hh - 1) by (nonlinear_arith)
        requires 0 <= c <= cc - 1, 0 <= h <= hh - 1, hh > 0;
    assert((c * hh + h) * ss + s <= (cc * hh - 1) * ss + ss - 1) by (nonlinear_arith)
        requires 0 <= c * hh + h <= cc * hh - 1, 0 <= s <= ss - 1, ss > 0;
    assert((cc * hh - 1) * ss + ss - 1 == cc * hh * ss - 1) by (nonlinear_arith);
    assert(0 <= (c * hh + h) * ss + s) by (nonlinear_arith)
        requires 0 <= c, 0 <= h, 0 <= s, hh > 0, ss > 0;
}

} // verus!
