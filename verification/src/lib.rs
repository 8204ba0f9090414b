//! A read-only FAT32 filesystem driver over a sector-addressable block device.
//!
//! The driver finds the first FAT32 partition through the master boot record,
//! reads the volume's geometry from its BIOS parameter block, and then makes
//! files and directories reachable by path and readable as byte streams.
//! Every sector of a mounted volume passes through a cache that is keyed by
//! logical sector number and never evicts; the contracts of the read path
//! are stated over that cache.

pub mod cache;
pub mod cluster;
pub mod dir;
pub mod ebpb;
pub mod entry;
pub mod error;
pub mod fat;
pub mod file;
pub mod mbr;
pub mod metadata;
pub mod model;
pub mod name;
pub mod path;
pub mod traits;
pub mod util;
pub mod vfat;
