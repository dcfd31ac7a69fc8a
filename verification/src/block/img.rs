use vstd::prelude::*;
use crate::bytes::{copy_range, overwrite, overwritten};
use crate::error::Error;
use super::{sectors_of, Geometry, PhysicalBlockDevice, SectorState};

verus! {

/// A raw image: the sectors one after the other, cylinder-major.
#[derive(Clone)]
pub struct IMG {
    pub data: Vec<u8>,
    pub geometry: Geometry,
}

impl IMG {
    pub fn from_vec(image: Vec<u8>, geometry: Geometry) -> (img: IMG)
        ensures
            img.data == image,
            img.geometry == geometry,
    {
        IMG { data: image, geometry }
    }

    /// The position of sector `(cylinder, head, sector)` among the whole
    /// sectors that `data` holds, if it is one of them.
    fn locate(&self, cylinder: usize, head: usize, sector: usize) -> (at: Option<usize>)
        requires
            self.geometry.wf(),
        ensures
            match at {
                Some(i) => i == self.geometry.linear(cylinder as int, head as int, sector as int)
                    && i < self.contents().len(),
                None => self.geometry.linear(cylinder as int, head as int, sector as int)
                    >= self.contents().len(),
            },
    {
        let g = &self.geometry;
        let count = self.data.len() / g.sector_size;
        let ghost c = cylinder as int;
        let ghost h = head as int;
        let ghost s = sector as int;
        let ghost hh = g.heads as int;
        let ghost ss = g.sectors as int;
        proof {
            assert(g.linear(c, h, s) >= c * hh + h >= c) by (nonlinear_arith)
                requires hh >= 1, ss >= 1, c >= 0, h >= 0, s >= 0, g.linear(c, h, s) == (c * hh + h) * ss + s;
            assert(g.linear(c, h, s) >= s);
        }
        let track = match cylinder.checked_mul(g.heads) {
            None => { return None; },
            Some(t) => match t.checked_add(head) {
                None => { return None; },
                Some(t) => t,
            },
        };
        if track >= count {
            return None;
        }
        let lin = match track.checked_mul(g.sectors) {
            None => { return None; },
            Some(l) => match l.checked_add(sector) {
                None => { return None; },
                Some(l) => l,
            },
        };
        if lin >= count {
            None
        } else {
            Some(lin)
        }
    }
}

pub proof fn lemma_sector_bounds(len: int, size: int, i: int)
    requires
        size > 0,
        len >= 0,
        0 <= i < len / size,
    ensures
        0 <= i * size,
        (i + 1) * size <= len,
        i * size + size == (i + 1) * size,
{
    assert(i * size + size == (i + 1) * size) by (nonlinear_arith);
    assert(0 <= i * size) by (nonlinear_arith)
        requires 0 <= i, size > 0;
    assert((i + 1) * size <= (len / size) * size) by (nonlinear_arith)
        requires i + 1 <= len / size, size > 0;
    assert((len / size) * size <= len) by (nonlinear_arith)
        requires size > 0, len >= 0;
}

pub proof fn lemma_sectors_disjoint(size: int, i: int, j: int)
    requires
        size > 0,
        i < j,
    ensures
        (i + 1) * size <= j * size,
{
    assert((i + 1) * size <= j * size) by (nonlinear_arith)
        requires i + 1 <= j, size > 0;
}

/// Overwriting the bytes of one sector changes that sector and no other.
pub proof fn lemma_overwrite_sector(data: Seq<u8>, size: int, i: int, src: Seq<u8>)
    requires
        size > 0,
        0 <= i < (data.len() as int) / size,
        src.len() == size,
    ensures
        sectors_of(overwritten(data, i * size, src), size) == sectors_of(data, size).update(i, Ok(src)),
{
    let after = overwritten(data, i * size, src);
    let a = sectors_of(after, size);
    let b = sectors_of(data, size).update(i, Ok(src));
    lemma_sector_bounds(data.len() as int, size, i);
    assert(a.len() == b.len());
    assert forall|j: int| 0 <= j < a.len() implies a[j] == b[j] by {
        lemma_sector_bounds(data.len() as int, size, j);
        if j == i {
            assert(after.subrange(j * size, (j + 1) * size) =~= src);
        } else {
            if j < i {
                lemma_sectors_disjoint(size, j, i);
            } else {
                lemma_sectors_disjoint(size, i, j);
            }
            assert(after.subrange(j * size, (j + 1) * size) =~= data.subrange(j * size, (j + 1) * size));
        }
    }
    assert(a =~= b);
}

impl PhysicalBlockDevice for IMG {
    open spec fn wf(&self) -> bool {
        self.geometry.wf()
    }

    open spec fn geometry_spec(&self) -> Geometry {
        self.geometry
    }

    open spec fn contents(&self) -> Seq<SectorState> {
        sectors_of(self.data@, self.geometry.sector_size as int)
    }

    open spec fn serialized(&self) -> SectorState {
        Ok(self.data@)
    }

    open spec fn can_hold(geometry: Geometry) -> bool {
        true
    }

    proof fn lemma_wf(&self) {
        let size = self.geometry.sector_size as int;
        assert forall|i: int| 0 <= i < self.contents().len() implies (#[trigger] self.contents()[i] matches Ok(v)
            ==> v.len() == size) by {
            lemma_sector_bounds(self.data@.len() as int, size, i);
        }
    }

    fn from_raw(data: Vec<u8>, geometry: Geometry) -> (dev: Self)
        ensures
            dev.data == data,
            dev.geometry == geometry,
    {
        Self::from_vec(data, geometry)
    }

    fn read_sector(&self, cylinder: usize, head: usize, sector: usize) -> (r: Result<Vec<u8>, Error>) {
        match self.locate(cylinder, head, sector) {
            None => Err(Error::OutOfRange),
            Some(lin) => {
                let size = self.geometry.sector_size;
                let total = self.data.len();
                proof {
                    lemma_sector_bounds(total as int, size as int, lin as int);
                }
                let start = lin * size;
                Ok(copy_range(self.data.as_slice(), start, start + size))
            },
        }
    }

    fn write_sector(&mut self, cylinder: usize, head: usize, sector: usize, buf: &[u8]) -> (r: Result<
        (),
        Error,
    >)
        ensures
            final(self).geometry == old(self).geometry,
            final(self).data@ == (if r is Ok {
                overwritten(
                    old(self).data@,
                    old(self).geometry.linear(cylinder as int, head as int, sector as int)
                        * old(self).geometry.sector_size,
                    buf@,
                )
            } else {
                old(self).data@
            }),
    {
        let size = self.geometry.sector_size;
        if buf.len() != size {
            return Err(Error::PartialSector);
        }
        match self.locate(cylinder, head, sector) {
            None => Err(Error::OutOfRange),
            Some(lin) => {
                let total = self.data.len();
                proof {
                    lemma_sector_bounds(total as int, size as int, lin as int);
                    lemma_overwrite_sector(self.data@, size as int, lin as int, buf@);
                }
                overwrite(&mut self.data, lin * size, buf);
                Ok(())
            },
        }
    }

    fn geometry(&self) -> (g: &Geometry) {
        &self.geometry
    }

    fn as_vec(&self) -> (r: Result<Vec<u8>, Error>) {
        Ok(self.data.clone())
    }
}

} // verus!
