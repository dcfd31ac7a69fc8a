use vstd::prelude::*;
use crate::error::Error;
use super::{sector_at, Geometry, BlockDevice, PhysicalBlockDevice, SectorState};

verus! {

/// A device whose sectors are numbered in cylinder-major order.
pub struct Flat<B: PhysicalBlockDevice>(pub B);

/// Where sector `sector` lies on a medium of geometry `g`.
pub open spec fn flat_address(g: Geometry, sector: int) -> (int, int, int) {
    (sector / (g.sectors as int) / (g.heads as int), sector / (g.sectors as int) % (g.heads as int), sector % (
    g.sectors as int))
}

/// The flat address of a sector is the one whose cylinder-major position is
/// that sector, with head and sector inside the geometry.
pub proof fn lemma_flat_address(g: Geometry, sector: int)
    requires
        g.heads > 0,
        g.sectors > 0,
        sector >= 0,
    ensures
        ({
            let (c, h, s) = flat_address(g, sector);
            &&& g.linear(c, h, s) == sector
            &&& 0 <= c
            &&& 0 <= h < g.heads
            &&& 0 <= s < g.sectors
            &&& (sector < g.sectors_spec() ==> c < g.cylinders)
        }),
{
    let ss = g.sectors as int;
    let hh = g.heads as int;
    let cc = g.cylinders as int;
    let t = sector / ss;
    let (c, h, s) = flat_address(g, sector);
    assert(sector == t * ss + s) by (nonlinear_arith)
        requires t == sector / ss, s == sector % ss, ss > 0;
    assert(t == c * hh + h) by (nonlinear_arith)
        requires c == t / hh, h == t % hh, hh > 0;
    assert(t >= 0 && c >= 0) by (nonlinear_arith)
        requires t == sector / ss, c == t / hh, sector >= 0, ss > 0, hh > 0;
    if sector < g.sectors_spec() {
        assert(c < cc) by (nonlinear_arith)
            requires (c * hh + h) * ss + s < cc * hh * ss, 0 <= h, 0 <= s, hh > 0, ss > 0;
    }
}

impl<B: PhysicalBlockDevice> Flat<B> {
    pub fn physical_from_logical(&self, sector: usize) -> (r: (usize, usize, usize))
        requires
            self.0.wf(),
        ensures
            (r.0 as int, r.1 as int, r.2 as int) == flat_address(self.0.geometry_spec(), sector as int),
    {
        proof { self.0.lemma_wf(); }
        let g = self.0.geometry();
        let c = sector / g.sectors / g.heads;
        let h = sector / g.sectors % g.heads;
        let s = sector % g.sectors;
        (c, h, s)
    }
}

impl<B: PhysicalBlockDevice> BlockDevice for Flat<B> {
    type Physical = B;

    open spec fn wf(&self) -> bool {
        self.0.wf()
    }

    open spec fn sector_size_spec(&self) -> int {
        self.0.geometry_spec().sector_size as int
    }

    open spec fn contents(&self) -> Seq<SectorState> {
        Seq::new(self.0.geometry_spec().sectors_spec() as nat, |i: int| sector_at(self.0.contents(), i))
    }

    proof fn lemma_wf(&self) {
        self.0.lemma_wf();
        self.0.geometry_spec().lemma_sizes();
    }

    fn read_sector(&self, sector: usize) -> (r: Result<Vec<u8>, Error>) {
        proof {
            self.0.lemma_wf();
            lemma_flat_address(self.0.geometry_spec(), sector as int);
        }
        if sector >= self.sectors() {
            return Err(Error::OutOfRange);
        }
        let (c, h, s) = self.physical_from_logical(sector);
        self.0.read_sector(c, h, s)
    }

    fn write_sector(&mut self, sector: usize, buf: &[u8]) -> (r: Result<(), Error>) {
        proof {
            self.0.lemma_wf();
            lemma_flat_address(self.0.geometry_spec(), sector as int);
        }
        if buf.len() != self.sector_size() {
            return Err(Error::PartialSector);
        }
        if sector >= self.sectors() {
            return Err(Error::OutOfRange);
        }
        let (c, h, s) = self.physical_from_logical(sector);
        let r = self.0.write_sector(c, h, s, buf);
        proof {
            self.0.lemma_wf();
            if r is Ok {
                assert(self.contents() =~= old(self).contents().update(sector as int, Ok(buf@)));
            } else {
                assert(self.contents() =~= old(self).contents());
            }
        }
        r
    }

    fn sector_size(&self) -> (n: usize) {
        self.0.geometry().sector_size
    }

    fn sectors(&self) -> (n: usize) {
        proof { self.0.lemma_wf(); }
        self.0.geometry().sectors()
    }

    open spec fn physical_spec(&self) -> B {
        self.0
    }

    open spec fn medium_sector(&self, sector: int) -> int {
        sector
    }

    proof fn lemma_medium(&self, sector: int) {
    }

    fn physical_device(&self) -> (dev: &B) {
        &self.0
    }
}

} // verus!
