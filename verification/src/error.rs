use vstd::prelude::*;

verus! {

/// The ways an operation on an image can fail.
#[derive(Clone, Copy, Debug, PartialEq, Eq, Structural)]
pub enum Error {
    /// The bytes do not follow the format they are read as.
    Format,
    /// A sector or block lies past the end of the device.
    OutOfRange,
    /// A buffer does not cover the sectors that are to be written.
    PartialSector,
    /// No file of that name.
    NotFound,
    /// No room for the blocks, the directory entry or the directory segment.
    NoSpace,
    /// The name is not a 6.3 name over the RADIX-50 characters.
    NameInvalid,
    /// The date cannot be packed into the on-disk date word.
    DateOutOfRange,
    /// The image uses a feature that is not handled.
    Unsupported,
    /// The sector is marked deleted, in error, or has no data.
    SectorQuality,
    /// The path is not the root directory.
    BadPath,
    /// A file of that name exists and is not to be replaced.
    Exists,
}

} // verus!
