use vstd::prelude::*;
use crate::block::flat::Flat;
use crate::block::imd::{imd_can_hold, imd_wf, parsed_imd, ImdView, IMD};
use crate::block::img::IMG;
use crate::block::rx::{rx01_geometry, rx02_geometry, rx_floppy, rx_layout, RX};
use crate::block::{read_range, read_view, sectors_of, BlockDevice, Geometry, PhysicalBlockDevice, SectorState};
use crate::error::Error;
use crate::fs::rt11::volume::{same_text, RT11FS};
use crate::fs::FileSystem;
use crate::fs::xxdp::volume::XxdpFs;

verus! {

/// The kinds of medium that an image can be made for.
#[derive(Clone, Copy, Debug, PartialEq, Eq, Structural)]
pub enum DeviceType {
    RX01,
    RX02,
    /// A medium of so many bytes without interleave.
    Flat(usize),
}

/// The container formats.
#[derive(Clone, Copy, Debug, PartialEq, Eq, Structural)]
pub enum ImageType {
    IMD,
    IMG,
}

/// The filesystems.
#[derive(Clone, Copy, Debug, PartialEq, Eq, Structural)]
pub enum FileSystemType {
    RT11,
    XXDP,
}

/// The medium of an image, in either container.
pub enum Medium {
    IMG(IMG),
    IMD(IMD),
}

/// A device on a medium, with or without the floppy interleave.
pub enum Device {
    RX(RX<Medium>),
    Flat(Flat<Medium>),
}

/// A volume on a device, of either filesystem.
pub enum Volume {
    RT11(RT11FS<Device>),
    XXDP(XxdpFs<Device>),
}

/// A medium of `bytes` bytes in one track of sectors of 512 bytes.
pub open spec fn flat_geometry(bytes: usize) -> Geometry {
    Geometry { cylinders: 1, heads: 1, sectors: bytes / 512, sector_size: 512 }
}

impl DeviceType {
    pub open spec fn geometry_spec(&self) -> Geometry {
        match self {
            DeviceType::RX01 => rx_floppy(128),
            DeviceType::RX02 => rx_floppy(256),
            DeviceType::Flat(bytes) => flat_geometry(*bytes),
        }
    }

    /// The geometry of the medium.
    pub fn geometry(&self) -> (g: Geometry)
        ensures
            g == self.geometry_spec(),
            !(self matches DeviceType::Flat(n) && n < 512) ==> g.wf(),
    {
        match self {
            DeviceType::RX01 => rx01_geometry(),
            DeviceType::RX02 => rx02_geometry(),
            DeviceType::Flat(bytes) => {
                let g = Geometry { cylinders: 1, heads: 1, sectors: *bytes / 512, sector_size: 512 };
                assert(g.bytes_spec() == (*bytes / 512) * 512) by (nonlinear_arith)
                    requires
                        g.bytes_spec() == 1 * 1 * (*bytes / 512) * 512,
                ;
                g
            },
        }
    }
}

impl ImageType {
    /// The container that files with the extension `ext` hold: `img` or
    /// `imd`.
    pub fn from_file_ext(ext: &str) -> (r: Result<ImageType, Error>)
        ensures
            r == (if ext@ == "img"@ {
                Ok::<ImageType, Error>(ImageType::IMG)
            } else if ext@ == "imd"@ {
                Ok::<ImageType, Error>(ImageType::IMD)
            } else {
                Err::<ImageType, Error>(Error::Format)
            }),
    {
        if same_text(ext, "img") {
            Ok(ImageType::IMG)
        } else if same_text(ext, "imd") {
            Ok(ImageType::IMD)
        } else {
            Err(Error::Format)
        }
    }
}

impl PhysicalBlockDevice for Medium {
    open spec fn wf(&self) -> bool {
        match self {
            Medium::IMG(m) => m.wf(),
            Medium::IMD(m) => m.wf(),
        }
    }

    open spec fn geometry_spec(&self) -> Geometry {
        match self {
            Medium::IMG(m) => m.geometry_spec(),
            Medium::IMD(m) => m.geometry_spec(),
        }
    }

    open spec fn contents(&self) -> Seq<SectorState> {
        match self {
            Medium::IMG(m) => m.contents(),
            Medium::IMD(m) => m.contents(),
        }
    }

    open spec fn serialized(&self) -> SectorState {
        match self {
            Medium::IMG(m) => m.serialized(),
            Medium::IMD(m) => m.serialized(),
        }
    }

    open spec fn can_hold(geometry: Geometry) -> bool {
        true
    }

    proof fn lemma_wf(&self) {
        match self {
            Medium::IMG(m) => {
                m.lemma_wf();
                assert(self.contents() == m.contents());
                assert(self.geometry_spec() == m.geometry_spec());
            },
            Medium::IMD(m) => {
                m.lemma_wf();
                assert(self.contents() == m.contents());
                assert(self.geometry_spec() == m.geometry_spec());
            },
        }
    }

    fn geometry(&self) -> (g: &Geometry) {
        match self {
            Medium::IMG(m) => m.geometry(),
            Medium::IMD(m) => m.geometry(),
        }
    }

    fn read_sector(&self, cylinder: usize, head: usize, sector: usize) -> (r: Result<Vec<u8>, Error>) {
        match self {
            Medium::IMG(m) => m.read_sector(cylinder, head, sector),
            Medium::IMD(m) => m.read_sector(cylinder, head, sector),
        }
    }

    fn write_sector(&mut self, cylinder: usize, head: usize, sector: usize, buf: &[u8]) -> (r: Result<
        (),
        Error,
    >) {
        match self {
            Medium::IMG(m) => m.write_sector(cylinder, head, sector, buf),
            Medium::IMD(m) => m.write_sector(cylinder, head, sector, buf),
        }
    }

    fn as_vec(&self) -> (r: Result<Vec<u8>, Error>) {
        match self {
            Medium::IMG(m) => m.as_vec(),
            Medium::IMD(m) => m.as_vec(),
        }
    }

    fn from_raw(data: Vec<u8>, geometry: Geometry) -> (dev: Self)
        ensures
            dev matches Medium::IMG(img) && img.data == data && img.geometry == geometry,
    {
        Medium::IMG(IMG::from_raw(data, geometry))
    }
}

impl BlockDevice for Device {
    type Physical = Medium;

    open spec fn wf(&self) -> bool {
        match self {
            Device::RX(d) => d.wf(),
            Device::Flat(d) => d.wf(),
        }
    }

    open spec fn sector_size_spec(&self) -> int {
        match self {
            Device::RX(d) => d.sector_size_spec(),
            Device::Flat(d) => d.sector_size_spec(),
        }
    }

    open spec fn contents(&self) -> Seq<SectorState> {
        match self {
            Device::RX(d) => d.contents(),
            Device::Flat(d) => d.contents(),
        }
    }

    proof fn lemma_wf(&self) {
        match self {
            Device::RX(d) => d.lemma_wf(),
            Device::Flat(d) => d.lemma_wf(),
        }
    }

    fn read_sector(&self, sector: usize) -> (r: Result<Vec<u8>, Error>) {
        match self {
            Device::RX(d) => d.read_sector(sector),
            Device::Flat(d) => d.read_sector(sector),
        }
    }

    fn write_sector(&mut self, sector: usize, buf: &[u8]) -> (r: Result<(), Error>) {
        match self {
            Device::RX(d) => d.write_sector(sector, buf),
            Device::Flat(d) => d.write_sector(sector, buf),
        }
    }

    fn sector_size(&self) -> (n: usize) {
        match self {
            Device::RX(d) => d.sector_size(),
            Device::Flat(d) => d.sector_size(),
        }
    }

    fn sectors(&self) -> (n: usize) {
        match self {
            Device::RX(d) => d.sectors(),
            Device::Flat(d) => d.sectors(),
        }
    }

    open spec fn physical_spec(&self) -> Medium {
        match self {
            Device::RX(d) => d.0,
            Device::Flat(d) => d.0,
        }
    }

    open spec fn medium_sector(&self, sector: int) -> int {
        match self {
            Device::RX(d) => d.medium_sector(sector),
            Device::Flat(d) => d.medium_sector(sector),
        }
    }

    proof fn lemma_medium(&self, sector: int) {
        match self {
            Device::RX(d) => d.lemma_medium(sector),
            Device::Flat(d) => d.lemma_medium(sector),
        }
    }

    fn physical_device(&self) -> (dev: &Medium) {
        match self {
            Device::RX(d) => d.physical_device(),
            Device::Flat(d) => d.physical_device(),
        }
    }
}

/// What the bytes of an image file are taken for.
pub enum ImageKind {
    /// An ImageDisk file: it begins with the letters IMD.
    Imd,
    /// A raw RX01 floppy: 256256 bytes.
    Rx01,
    /// A raw RX02 floppy: 512512 bytes.
    Rx02,
    /// A raw disk: a mebibyte or more.
    Disk,
    Unknown,
}

/// What the bytes of an image file are taken for, by their first three
/// bytes and their number.
pub open spec fn image_kind(bytes: Seq<u8>) -> ImageKind {
    if bytes.len() >= 3 && bytes[0] == 0x49 && bytes[1] == 0x4D && bytes[2] == 0x44 {
        ImageKind::Imd
    } else if bytes.len() == 256256 {
        ImageKind::Rx01
    } else if bytes.len() == 512512 {
        ImageKind::Rx02
    } else if bytes.len() >= 1048576 {
        ImageKind::Disk
    } else {
        ImageKind::Unknown
    }
}

/// The device for an ImageDisk image: with the floppy interleave where the
/// medium has less than a mebibyte, without it else. An image that cannot
/// be used as a device is refused, and so is a small one without the layout
/// of a floppy.
pub open spec fn imd_device_kind(v: ImdView) -> Result<bool, Error> {
    if !imd_wf(v) {
        Err(Error::Format)
    } else if v.geometry.bytes_spec() < 1048576 {
        if rx_layout(v.geometry) { Ok(true) } else { Err(Error::Unsupported) }
    } else {
        Ok(false)
    }
}

/// The device is the one that the bytes of the image file stand for.
pub open spec fn opened(image: Seq<u8>, r: Result<Device, Error>) -> bool {
    match image_kind(image) {
        ImageKind::Unknown => r matches Err(e) && e == Error::Format,
        ImageKind::Rx01 => r matches Ok(Device::RX(RX(Medium::IMG(img)))) && img.data@ == image && img.geometry
            == rx_floppy(128),
        ImageKind::Rx02 => r matches Ok(Device::RX(RX(Medium::IMG(img)))) && img.data@ == image && img.geometry
            == rx_floppy(256),
        ImageKind::Disk => r matches Ok(Device::Flat(Flat(Medium::IMG(img)))) && img.data@ == image && img.geometry
            == flat_geometry(image.len() as usize),
        ImageKind::Imd => match parsed_imd(image) {
            Err(e) => r matches Err(x) && x == e,
            Ok(v) => match imd_device_kind(v) {
                Err(e) => r matches Err(x) && x == e,
                Ok(true) => r matches Ok(Device::RX(RX(Medium::IMD(imd)))) && imd@ == v,
                Ok(false) => r matches Ok(Device::Flat(Flat(Medium::IMD(imd)))) && imd@ == v,
            },
        },
    }
}

/// The device that the bytes of an image file stand for.
pub fn open_device(image: Vec<u8>) -> (r: Result<Device, Error>)
    ensures
        opened(image@, r),
        r matches Ok(dev) ==> dev.wf(),
{
    let len = image.len();
    if len >= 3 && image[0] == 0x49 && image[1] == 0x4D && image[2] == 0x44 {
        let imd = match IMD::from_bytes(image.as_slice()) {
            Ok(i) => i,
            Err(e) => { return Err(e); },
        };
        if !imd.is_device() {
            return Err(Error::Format);
        }
        if imd.geometry.bytes() < 1048576 {
            if imd.geometry.heads == 1 && imd.geometry.sectors == 26 {
                Ok(Device::RX(RX(Medium::IMD(imd))))
            } else {
                Err(Error::Unsupported)
            }
        } else {
            Ok(Device::Flat(Flat(Medium::IMD(imd))))
        }
    } else if len == 256256 {
        Ok(Device::RX(RX(Medium::IMG(IMG::from_vec(image, rx01_geometry())))))
    } else if len == 512512 {
        Ok(Device::RX(RX(Medium::IMG(IMG::from_vec(image, rx02_geometry())))))
    } else if len >= 1048576 {
        let g = Geometry { cylinders: 1, heads: 1, sectors: len / 512, sector_size: 512 };
        assert(g.bytes_spec() == (len / 512) * 512) by (nonlinear_arith)
            requires g.bytes_spec() == 1 * 1 * (len / 512) * 512;
        Ok(Device::Flat(Flat(Medium::IMG(IMG::from_vec(image, g)))))
    } else {
        Err(Error::Format)
    }
}

/// The volume is the one that the device holds: an XXDP volume where it
/// can be read as one, else an RT-11 volume where it can be read as one
/// whose entries lie on the device.
pub open spec fn mounted(dev: Device, r: Result<Volume, Error>) -> bool {
    let contents = dev.contents();
    let size = dev.sector_size_spec();
    match crate::fs::xxdp::volume::loaded(contents, size) {
        Ok(v) => r matches Ok(Volume::XXDP(fs)) && fs.view() == v && fs.image == dev,
        Err(_) => match crate::fs::rt11::volume::loaded(contents, size) {
            Err(_) => r matches Err(e) && e == Error::Format,
            Ok((home, dir)) => if forall|s: int, e: int|
                0 <= s < dir.len() && 0 <= e < dir[s].entries.len() ==> (#[trigger] dir[s].entries[e]).length
                    < contents.len() * size / 512 && dir[s].entries[e].block < contents.len() * size / 512 {
                r matches Ok(Volume::RT11(fs)) && fs.home@ == home && fs.dir_view() == dir && fs.image == dev
            } else {
                r matches Err(e) && e == Error::Format
            },
        },
    }
}

/// The volume that the device holds.
pub fn open_fs(dev: Device) -> (r: Result<Volume, Error>)
    requires
        dev.wf(),
    ensures
        mounted(dev, r),
        r matches Ok(fs) ==> fs.wf(),
{
    if XxdpFs::image_is(&dev) {
        match XxdpFs::new(dev) {
            Ok(fs) => Ok(Volume::XXDP(fs)),
            Err(e) => Err(e),
        }
    } else if RT11FS::image_is(&dev) {
        match RT11FS::new(dev) {
            Ok(fs) => Ok(Volume::RT11(fs)),
            Err(e) => Err(e),
        }
    } else {
        Err(Error::Format)
    }
}

/// A device of the given kind whose sectors are all zero, in a container of
/// the given kind. A medium without a sector, and one that the container
/// cannot hold, is refused.
pub fn blank_device(image_type: ImageType, device_type: DeviceType) -> (r: Result<Device, Error>)
    ensures
        match r {
            Ok(dev) => is_blank(dev, image_type, device_type) && !(device_type matches DeviceType::Flat(n) && n < 512)
                && !(image_type == ImageType::IMD && !imd_can_hold(device_type.geometry_spec())),
            Err(e) => if (device_type matches DeviceType::Flat(n) && n < 512) {
                e == Error::Format
            } else {
                e == Error::Unsupported && image_type == ImageType::IMD && !imd_can_hold(
                    device_type.geometry_spec(),
                )
            },
        },
{
    let g = device_type.geometry();
    if let DeviceType::Flat(n) = device_type {
        if n < 512 {
            return Err(Error::Format);
        }
        assert(g.bytes_spec() == (n / 512) * 512) by (nonlinear_arith)
            requires g.bytes_spec() == 1 * 1 * (n / 512) * 512;
    }
    let mut data: Vec<u8> = Vec::new();
    crate::bytes::push_zeros(&mut data, g.bytes());
    assert(data@ =~= crate::fs::rt11::zeros(g.bytes_spec()));
    let medium = match image_type {
        ImageType::IMG => Medium::IMG(IMG::from_raw(data, g)),
        ImageType::IMD => {
            if g.cylinders > 256 || g.heads > 2 || g.sectors > 255 {
                return Err(Error::Unsupported);
            }
            Medium::IMD(IMD::from_raw(data, g))
        },
    };
    match device_type {
        DeviceType::Flat(_) => Ok(Device::Flat(Flat(medium))),
        _ => Ok(Device::RX(RX(medium))),
    }
}

/// Makes a new volume of the given filesystem on the device.
pub fn mkfs(fstype: FileSystemType, image: Device) -> (r: Result<Volume, Error>)
    requires
        image.wf(),
    ensures
        made_on(fstype, image, r),
{
    match fstype {
        FileSystemType::RT11 => match RT11FS::mkfs(image) {
            Ok(fs) => Ok(Volume::RT11(fs)),
            Err(e) => Err(e),
        },
        FileSystemType::XXDP => match XxdpFs::mkfs(image) {
            Ok(fs) => Ok(Volume::XXDP(fs)),
            Err(e) => Err(e),
        },
    }
}

/// The device is a blank one of the given kinds: its medium has the
/// geometry of the device type and sectors that are all zero, in the
/// container of the image type, under the mapping of the device type.
pub open spec fn is_blank(dev: Device, image_type: ImageType, device_type: DeviceType) -> bool {
    &&& dev.wf()
    &&& device_type.geometry_spec().wf()
    &&& dev.physical_spec().geometry_spec() == device_type.geometry_spec()
    &&& dev.physical_spec().contents() == sectors_of(
        crate::fs::rt11::zeros(device_type.geometry_spec().bytes_spec()),
        device_type.geometry_spec().sector_size as int,
    )
    &&& (dev is Flat <==> device_type is Flat)
    &&& (dev.physical_spec() is IMD <==> image_type == ImageType::IMD)
}

/// The answer `r` is what making a volume of the given filesystem on the
/// device `image` gives.
pub open spec fn made_on(fstype: FileSystemType, image: Device, r: Result<Volume, Error>) -> bool {
    match r {
        Ok(Volume::RT11(fs)) => fstype == FileSystemType::RT11 && fs.wf() && exists|owner: Seq<char>|
            #[trigger] crate::fs::rt11::volume::mkfs_outcome(image.contents(), image.sector_size_spec(), owner) == Ok::<
                (crate::fs::rt11::home::HomeView, Seq<crate::fs::rt11::SegmentView>, Seq<SectorState>),
                Error,
            >((fs.home@, fs.dir_view(), fs.image.contents())),
        Ok(Volume::XXDP(fs)) => fstype == FileSystemType::XXDP && fs.wf() && crate::fs::xxdp::volume::mkfs_outcome(
            image.contents(),
            image.sector_size_spec(),
        ) == Ok::<(crate::fs::xxdp::volume::VolumeView, Seq<SectorState>), Error>((fs.view(), fs.image.contents())),
        Err(e) => match fstype {
            FileSystemType::RT11 => exists|owner: Seq<char>|
                #[trigger] crate::fs::rt11::volume::mkfs_outcome(image.contents(), image.sector_size_spec(), owner)
                    == Err::<
                    (crate::fs::rt11::home::HomeView, Seq<crate::fs::rt11::SegmentView>, Seq<SectorState>),
                    Error,
                >(e),
            FileSystemType::XXDP => crate::fs::xxdp::volume::mkfs_outcome(image.contents(), image.sector_size_spec())
                == Err::<(crate::fs::xxdp::volume::VolumeView, Seq<SectorState>), Error>(e),
        },
    }
}

/// Makes a blank medium of the given kind in a container of the given kind
/// and a new volume of the given filesystem on it.
pub fn create_image(image_type: ImageType, device_type: DeviceType, fstype: FileSystemType) -> (r: Result<
    Volume,
    Error,
>)
    ensures
        r matches Ok(fs) ==> fs.wf(),
        if (device_type matches DeviceType::Flat(n) && n < 512) {
            r matches Err(e) && e == Error::Format
        } else if image_type == ImageType::IMD && !imd_can_hold(device_type.geometry_spec()) {
            r matches Err(e) && e == Error::Unsupported
        } else {
            exists|dev: Device| is_blank(dev, image_type, device_type) && #[trigger] made_on(fstype, dev, r)
        },
{
    let device = match blank_device(image_type, device_type) {
        Ok(d) => d,
        Err(e) => { return Err(e); },
    };
    let r = mkfs(fstype, device);
    proof {
        assert(is_blank(device, image_type, device_type) && made_on(fstype, device, r));
    }
    r
}

/// The medium of the device in a container of the given kind: the sectors
/// of the medium, read in their order, in a new container.
pub fn convert(image: &Device, image_type: ImageType) -> (r: Result<Medium, Error>)
    requires
        image.wf(),
    ensures
        match read_range(
            image.physical_spec().contents(),
            0,
            image.physical_spec().geometry_spec().sectors_spec(),
        ) {
            Err(e) => r matches Err(x) && x == e,
            Ok(bytes) => if image_type == ImageType::IMD && !imd_can_hold(
                image.physical_spec().geometry_spec(),
            ) {
                r matches Err(x) && x == Error::Unsupported
            } else {
                r matches Ok(m) && m.wf() && m.geometry_spec() == image.physical_spec().geometry_spec()
                    && (m is IMD <==> image_type == ImageType::IMD) && m.contents() == sectors_of(
                    bytes,
                    m.geometry_spec().sector_size as int,
                )
            },
        },
{
    let medium = image.physical_device();
    let (geometry, data) = match medium.to_raw() {
        Ok(raw) => raw,
        Err(e) => { return Err(e); },
    };
    proof {
        medium.lemma_wf();
        geometry.lemma_sizes();
        crate::block::lemma_read_range_len(
            medium.contents(),
            geometry.sector_size as int,
            0,
            geometry.sectors_spec(),
        );
        assert(geometry.sectors_spec() * geometry.sector_size == geometry.bytes_spec());
    }
    match image_type {
        ImageType::IMG => Ok(Medium::IMG(IMG::from_raw(data, geometry))),
        ImageType::IMD => {
            if geometry.cylinders > 256 || geometry.heads > 2 || geometry.sectors > 255 {
                return Err(Error::Unsupported);
            }
            Ok(Medium::IMD(IMD::from_raw(data, geometry)))
        },
    }
}

impl Volume {
    /// The volume is consistent and can be worked on.
    pub open spec fn wf(&self) -> bool {
        match self {
            Volume::RT11(fs) => fs.wf(),
            Volume::XXDP(fs) => fs.wf(),
        }
    }

    /// A file named `name` exists.
    pub open spec fn has_file(&self, name: Seq<char>) -> bool {
        match self {
            Volume::RT11(fs) => crate::fs::FileSystem::has_file(fs, name),
            Volume::XXDP(fs) => crate::fs::FileSystem::has_file(fs, name),
        }
    }

    /// The name of the filesystem.
    pub fn filesystem_name(&self) -> (name: &'static str)
        ensures
            name@ == (match self {
                Volume::RT11(_) => "RT-11"@,
                Volume::XXDP(_) => "XXDP"@,
            }),
    {
        match self {
            Volume::RT11(fs) => fs.filesystem_name(),
            Volume::XXDP(fs) => fs.filesystem_name(),
        }
    }

    /// The device that holds the volume.
    pub fn block_device(&self) -> (dev: &Device)
        ensures
            *dev == (match self {
                Volume::RT11(fs) => fs.image,
                Volume::XXDP(fs) => fs.image,
            }),
    {
        match self {
            Volume::RT11(fs) => fs.block_device(),
            Volume::XXDP(fs) => fs.block_device(),
        }
    }

    /// A file named `name` exists.
    pub fn contains_file(&self, name: &str) -> (b: bool)
        ensures
            b == self.has_file(name@),
    {
        match self {
            Volume::RT11(fs) => fs.find_file_named(name).is_some(),
            Volume::XXDP(fs) => fs.raw_stat(name).is_some(),
        }
    }

    /// Blocks that are free.
    pub fn free_blocks(&self) -> (n: usize)
        requires
            self.wf(),
        ensures
            n == (match self {
                Volume::RT11(fs) => crate::fs::FileSystem::free_spec(fs),
                Volume::XXDP(fs) => crate::fs::FileSystem::free_spec(fs),
            }),
    {
        match self {
            Volume::RT11(fs) => fs.free_blocks(),
            Volume::XXDP(fs) => fs.free_blocks(),
        }
    }

    /// Blocks that are in use.
    pub fn used_blocks(&self) -> (n: usize)
        requires
            self.wf(),
        ensures
            n == (match self {
                Volume::RT11(fs) => crate::fs::FileSystem::used_spec(fs),
                Volume::XXDP(fs) => crate::fs::FileSystem::used_spec(fs),
            }),
    {
        match self {
            Volume::RT11(fs) => fs.used_blocks(),
            Volume::XXDP(fs) => fs.used_blocks(),
        }
    }

    /// What the file named `name` holds.
    pub fn read_file(&self, name: &str) -> (r: Result<Vec<u8>, Error>)
        requires
            self.wf(),
        ensures
            read_view(r) == (match self {
                Volume::RT11(fs) => crate::fs::rt11::volume::read_file_outcome(
                    fs.dir_view(),
                    fs.image.contents(),
                    fs.image.sector_size_spec(),
                    name@,
                ),
                Volume::XXDP(fs) => crate::fs::xxdp::volume::read_file_outcome(
                    fs.view(),
                    fs.image.contents(),
                    fs.image.sector_size_spec(),
                    name@,
                ),
            }),
    {
        match self {
            Volume::RT11(fs) => fs.read_file(name),
            Volume::XXDP(fs) => fs.read_file(name),
        }
    }

    /// Makes a file named `name` that holds `contents`, dated `date`, in
    /// place of a file of that name.
    pub fn write_file_dated(&mut self, name: &str, contents: &[u8], date: crate::date::Date) -> (r: Result<(), Error>)
        requires
            old(self).wf(),
            date.wf(),
        ensures
            final(self).wf(),
            written_on(*old(self), *final(self), r, name@, contents@, date),
    {
        match self {
            Volume::RT11(fs) => fs.write_file_dated(name, contents, date),
            Volume::XXDP(fs) => fs.write_file_dated(name, contents, date),
        }
    }

    /// Makes a file named `name` that holds `contents`, dated with the
    /// clock's day in universal time, in place of a file of that name. Where
    /// the clock shows no day, nothing is changed and the answer is the error
    /// for a date out of range.
    pub fn write_file(&mut self, name: &str, contents: &[u8]) -> (r: Result<(), Error>)
        requires
            old(self).wf(),
        ensures
            final(self).wf(),
            written_to(*old(self), *final(self), r, name@, contents@),
    {
        match self {
            Volume::RT11(fs) => fs.write_file(name, contents),
            Volume::XXDP(fs) => fs.write_file(name, contents),
        }
    }

    /// Deletes the file named `name`.
    pub fn delete(&mut self, name: &str) -> (r: Result<(), Error>)
        requires
            old(self).wf(),
        ensures
            final(self).wf(),
            deleted_from(*old(self), *final(self), r, name@),
    {
        match self {
            Volume::RT11(fs) => fs.delete(name),
            Volume::XXDP(fs) => fs.delete(name),
        }
    }

    /// Gives the file named `src` the name `dest`, in place of a file of
    /// that name.
    pub fn rename(&mut self, src: &str, dest: &str) -> (r: Result<(), Error>)
        requires
            old(self).wf(),
        ensures
            final(self).wf(),
            moved_in(*old(self), *final(self), r, src@, dest@),
    {
        match self {
            Volume::RT11(fs) => FileSystem::rename(fs, src, dest),
            Volume::XXDP(fs) => FileSystem::rename(fs, src, dest),
        }
    }
}

/// The volume `after` and the answer `r` are what writing a file named
/// `name` that holds `data` to the volume `before` gives on the day `date`.
pub open spec fn written_on(
    before: Volume,
    after: Volume,
    r: Result<(), Error>,
    name: Seq<char>,
    data: Seq<u8>,
    date: crate::date::Date,
) -> bool {
    match (before, after) {
        (Volume::RT11(a), Volume::RT11(b)) => b.home == a.home && (r, b.dir_view(), b.image.contents())
            == crate::fs::rt11::volume::write_file_outcome(
            a.dir_view(),
            a.home.directory_start_block,
            a.image.contents(),
            a.image.sector_size_spec(),
            name,
            data,
            date,
        ),
        (Volume::XXDP(a), Volume::XXDP(b)) => (r, b.view(), b.image.contents())
            == crate::fs::xxdp::volume::write_file_outcome(
            a.view(),
            a.image.contents(),
            a.image.sector_size_spec(),
            name,
            data,
            date,
        ),
        _ => false,
    }
}

/// The volume `after` and the answer `r` are what writing a file named
/// `name` that holds `data` to the volume `before` gives on the clock's day.
pub open spec fn written_to(before: Volume, after: Volume, r: Result<(), Error>, name: Seq<char>, data: Seq<u8>) -> bool {
    match (before, after) {
        (Volume::RT11(a), Volume::RT11(b)) => b.home == a.home && crate::fs::rt11::volume::written_today(
            a.dir_view(),
            a.home.directory_start_block,
            a.image.contents(),
            a.image.sector_size_spec(),
            name,
            data,
            r,
            b.dir_view(),
            b.image.contents(),
        ),
        (Volume::XXDP(a), Volume::XXDP(b)) => crate::fs::xxdp::volume::written_today(
            a.view(),
            a.image.contents(),
            a.image.sector_size_spec(),
            name,
            data,
            r,
            b.view(),
            b.image.contents(),
        ),
        _ => false,
    }
}

/// The volume `after` and the answer `r` are what deleting the file named
/// `name` from the volume `before` gives.
pub open spec fn deleted_from(before: Volume, after: Volume, r: Result<(), Error>, name: Seq<char>) -> bool {
    match (before, after) {
        (Volume::RT11(a), Volume::RT11(b)) => b.home == a.home && (r, b.dir_view(), b.image.contents())
            == crate::fs::rt11::volume::delete_outcome(
            a.dir_view(),
            a.image.contents(),
            a.image.sector_size_spec(),
            name,
        ),
        (Volume::XXDP(a), Volume::XXDP(b)) => (r, b.view(), b.image.contents())
            == crate::fs::xxdp::volume::delete_outcome(a.view(), a.image.contents(), a.image.sector_size_spec(), name),
        _ => false,
    }
}

/// The volume `after` and the answer `r` are what giving the file named
/// `src` the name `dest` on the volume `before` gives.
pub open spec fn moved_in(before: Volume, after: Volume, r: Result<(), Error>, src: Seq<char>, dest: Seq<char>) -> bool {
    match (before, after) {
        (Volume::RT11(a), Volume::RT11(b)) => b.home == a.home && (r, b.dir_view(), b.image.contents())
            == crate::fs::rt11::volume::move_outcome(
            a.dir_view(),
            a.image.contents(),
            a.image.sector_size_spec(),
            src,
            dest,
        ),
        (Volume::XXDP(a), Volume::XXDP(b)) => (r, b.view(), b.image.contents())
            == crate::fs::xxdp::volume::move_outcome(
            a.view(),
            a.image.contents(),
            a.image.sector_size_spec(),
            src,
            dest,
        ),
        _ => false,
    }
}

/// The text in capitals, as `str::to_uppercase` makes it.
pub uninterp spec fn uppercased(text: Seq<char>) -> Seq<char>;

/// `str::to_uppercase`: the text with each character in its capital form.
#[verifier::external_body]
fn to_upper(text: &str) -> (out: String)
    ensures
        out@ == uppercased(text@),
{
    text.to_uppercase()
}

/// The name of a file on a volume for a path: the path in capitals.
pub fn path_to_rt11_filename(p: &str) -> (name: String)
    ensures
        name@ == uppercased(p@),
{
    to_upper(p)
}

/// Deletes the file that `file` names: the file whose name is `file` in
/// capitals.
pub fn rm(fs: &mut Volume, file: &str) -> (r: Result<(), Error>)
    requires
        old(fs).wf(),
    ensures
        final(fs).wf(),
        deleted_from(*old(fs), *final(fs), r, uppercased(file@)),
{
    let name = path_to_rt11_filename(file);
    fs.delete(name.as_str())
}

/// Gives the file that `src` names the name that `dest` names, both taken
/// in capitals. Where a file of that name exists it is replaced if
/// `overwrite_dest` says so, and the move is refused if not.
pub fn mv(fs: &mut Volume, src: &str, dest: &str, overwrite_dest: bool) -> (r: Result<(), Error>)
    requires
        old(fs).wf(),
    ensures
        final(fs).wf(),
        if !overwrite_dest && old(fs).has_file(uppercased(dest@)) {
            r == Err::<(), Error>(Error::Exists) && *final(fs) == *old(fs)
        } else {
            moved_in(*old(fs), *final(fs), r, uppercased(src@), uppercased(dest@))
        },
{
    let to = path_to_rt11_filename(dest);
    if !overwrite_dest && fs.contains_file(to.as_str()) {
        return Err(Error::Exists);
    }
    let from = path_to_rt11_filename(src);
    fs.rename(from.as_str(), to.as_str())
}

} // verus!
