//! Disk images of PDP-11 filesystems: container formats, block devices and
//! the RT-11 and XXDP volume layouts, with machine-checked contracts.

pub mod error;
pub mod bytes;
pub mod date;
pub mod name;
pub mod block;
pub mod fs;
pub mod ops;
