//! Verified core of an in-place FAT32 to ext4 converter.
//!
//! The partition is handled as a byte buffer. The library parses the FAT32 structures, plans the ext4
//! layout, allocates free clusters, and serializes the directory tree; the surrounding program does the I/O.
use vstd::prelude::*;

pub mod error;
pub mod ranges;
pub mod util;
pub mod bitmap;
pub mod lohi;
pub mod bytes;
pub mod fat;
pub mod allocator;
pub mod ext4;
pub mod serialization;
pub mod convert;
