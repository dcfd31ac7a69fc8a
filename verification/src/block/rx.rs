use vstd::prelude::*;
use crate::error::Error;
use super::{sector_at, Geometry, BlockDevice, PhysicalBlockDevice, SectorState};

verus! {

/// The 8-inch floppy with 77 tracks of 26 sectors of `sector_size` bytes.
pub open spec fn rx_floppy(sector_size: usize) -> Geometry {
    Geometry { cylinders: 77, heads: 1, sectors: 26, sector_size }
}

/// The 8-inch single-density floppy.
pub fn rx01_geometry() -> (g: Geometry)
    ensures
        g == rx_floppy(128),
        g.wf(),
        rx_layout(g),
{
    let g = Geometry { cylinders: 77, heads: 1, sectors: 26, sector_size: 128 };
    assert(g.bytes_spec() == 256256) by (nonlinear_arith)
        requires g.bytes_spec() == 77 * 1 * 26 * 128;
    g
}

/// The 8-inch double-density floppy.
pub fn rx02_geometry() -> (g: Geometry)
    ensures
        g == rx_floppy(256),
        g.wf(),
        rx_layout(g),
{
    let g = Geometry { cylinders: 77, heads: 1, sectors: 26, sector_size: 256 };
    assert(g.bytes_spec() == 512512) by (nonlinear_arith)
        requires g.bytes_spec() == 77 * 1 * 26 * 256;
    g
}

/// A floppy as RT-11 numbers its sectors: track 0 is left out, the sectors
/// of a track are interleaved two to one, and each track is skewed by six
/// sectors against the one before.
pub struct RX<B: PhysicalBlockDevice>(pub B);

/// Sectors on a track of these floppies.
pub open spec fn rx_track() -> int {
    26
}

/// The geometry is one that the interleave is defined for: one head and 26
/// sectors on a track.
pub open spec fn rx_layout(g: Geometry) -> bool {
    g.heads == 1 && g.sectors == rx_track()
}

/// Where logical sector `sector` lies on the medium.
pub open spec fn rx_address(sector: int) -> (int, int, int) {
    let cyl = sector / rx_track();
    let twice = (sector % rx_track()) * 2;
    let interleaved = if twice >= rx_track() { twice + 1 } else { twice };
    (cyl + 1, 0, (interleaved + cyl * 6) % rx_track())
}

/// Cylinder-major position on the medium of logical sector `sector`.
pub open spec fn rx_linear(sector: int) -> int {
    let (c, h, s) = rx_address(sector);
    c * rx_track() + s
}

/// Every logical sector lies on a cylinder from 1 on, on head 0, at a sector
/// from 0 to 25; with `cylinders` cylinders on the medium, the cylinder is
/// below that number.
pub proof fn lemma_rx_address_range(cylinders: int, sector: int)
    requires
        0 <= sector < (cylinders - 1) * rx_track(),
    ensures
        ({
            let (c, h, s) = rx_address(sector);
            1 <= c <= cylinders - 1 && h == 0 && 0 <= s <= 25
        }),
{
}

/// No two logical sectors lie at the same place.
pub proof fn lemma_rx_address_injective(a: int, b: int)
    requires
        0 <= a,
        0 <= b,
        rx_address(a) == rx_address(b),
    ensures
        a == b,
{
    let cyl = a / 26;
    assert(b / 26 == cyl);
    let sa = a % 26;
    let sb = b % 26;
    let ia = if sa * 2 >= 26 { sa * 2 + 1 } else { sa * 2 };
    let ib = if sb * 2 >= 26 { sb * 2 + 1 } else { sb * 2 };
    let k = cyl * 6;
    assert((ia + k) % 26 == (ib + k) % 26);
    assert((ia - ib) % 26 == 0);
    assert(-51 <= ia - ib <= 51);
    assert(ia == ib);
    assert(sa == sb);
}

pub proof fn lemma_rx_linear(g: Geometry, sector: int)
    requires
        rx_layout(g),
        0 <= sector,
    ensures
        ({
            let (c, h, s) = rx_address(sector);
            g.linear(c, h, s) == rx_linear(sector)
        }),
        rx_linear(sector) >= 0,
{
    let (c, h, s) = rx_address(sector);
    assert((c * 1 + 0) * 26 + s == c * 26 + s);
}

pub proof fn lemma_rx_linear_injective(a: int, b: int)
    requires
        0 <= a,
        0 <= b,
        rx_linear(a) == rx_linear(b),
    ensures
        a == b,
{
    let (ca, ha, sa) = rx_address(a);
    let (cb, hb, sb) = rx_address(b);
    assert(0 <= sa < 26 && 0 <= sb < 26);
    assert(ca == cb && sa == sb);
    lemma_rx_address_injective(a, b);
}

impl<B: PhysicalBlockDevice> RX<B> {
    pub fn physical_from_logical(&self, sector: usize) -> (r: (usize, usize, usize))
        requires
            self.wf(),
        ensures
            (r.0 as int, r.1 as int, r.2 as int) == rx_address(sector as int),
    {
        proof { self.0.lemma_wf(); }
        let g = self.0.geometry();
        let cyl = sector / g.sectors;
        let mut sec = sector % g.sectors;
        sec *= 2;
        if sec >= g.sectors {
            sec += 1;
        }
        sec += cyl * 6;
        sec %= g.sectors;
        (cyl + 1, 0, sec)
    }
}

impl<B: PhysicalBlockDevice> BlockDevice for RX<B> {
    type Physical = B;

    open spec fn wf(&self) -> bool {
        self.0.wf() && rx_layout(self.0.geometry_spec())
    }

    open spec fn sector_size_spec(&self) -> int {
        self.0.geometry_spec().sector_size as int
    }

    open spec fn contents(&self) -> Seq<SectorState> {
        Seq::new(
            ((self.0.geometry_spec().cylinders - 1) * rx_track()) as nat,
            |i: int| sector_at(self.0.contents(), rx_linear(i)),
        )
    }

    proof fn lemma_wf(&self) {
        self.0.lemma_wf();
        let g = self.0.geometry_spec();
        g.lemma_sizes();
        let c = g.cylinders as int;
        let z = g.sector_size as int;
        assert(g.sectors_spec() == c * 26) by (nonlinear_arith)
            requires g.sectors_spec() == c * 1 * 26;
        assert((c - 1) * 26 * z <= c * 26 * z) by (nonlinear_arith)
            requires z > 0;
    }

    fn read_sector(&self, sector: usize) -> (r: Result<Vec<u8>, Error>) {
        proof {
            self.0.lemma_wf();
            lemma_rx_linear(self.0.geometry_spec(), sector as int);
        }
        if sector >= self.sectors() {
            return Err(Error::OutOfRange);
        }
        let (c, h, s) = self.physical_from_logical(sector);
        self.0.read_sector(c, h, s)
    }

    fn write_sector(&mut self, sector: usize, buf: &[u8]) -> (r: Result<(), Error>) {
        proof {
            self.0.lemma_wf();
            lemma_rx_linear(self.0.geometry_spec(), sector as int);
        }
        if buf.len() != self.sector_size() {
            return Err(Error::PartialSector);
        }
        if sector >= self.sectors() {
            return Err(Error::OutOfRange);
        }
        let (c, h, s) = self.physical_from_logical(sector);
        let r = self.0.write_sector(c, h, s, buf);
        proof {
            self.0.lemma_wf();
            if r is Ok {
                let after = old(self).contents().update(sector as int, Ok(buf@));
                assert forall|j: int| 0 <= j < after.len() implies self.contents()[j] == after[j] by {
                    if j != sector {
                        if rx_linear(j) == rx_linear(sector as int) {
                            lemma_rx_linear_injective(j, sector as int);
                        }
                    }
                }
                assert(self.contents() =~= after);
            } else {
                assert(self.contents() =~= old(self).contents());
            }
        }
        r
    }

    fn sector_size(&self) -> (n: usize) {
        self.0.geometry().sector_size
    }

    fn sectors(&self) -> (n: usize) {
        proof {
            self.0.lemma_wf();
            self.0.geometry_spec().lemma_sizes();
        }
        let g = self.0.geometry();
        (g.cylinders - 1) * g.heads * g.sectors
    }

    open spec fn physical_spec(&self) -> B {
        self.0
    }

    open spec fn medium_sector(&self, sector: int) -> int {
        rx_linear(sector)
    }

    proof fn lemma_medium(&self, sector: int) {
    }

    fn physical_device(&self) -> (dev: &B) {
        &self.0
    }
}

} // verus!
