use vstd::prelude::*;
use crate::cluster::Cluster;

verus! {

/// What a FAT entry says about its cluster.
#[derive(PartialEq, Eq, Structural, Debug, Copy, Clone)]
pub enum Status {
    /// The cluster is unused.
    Free,
    /// The cluster is reserved.
    Reserved,
    /// The cluster holds data; the chain goes on at the given cluster.
    Data(Cluster),
    /// The cluster is marked bad.
    Bad,
    /// The cluster holds data and is the last of its chain.
    Eoc(u32),
}

/// A raw 32-bit cell of the file allocation table.
#[derive(PartialEq, Eq, Structural, Debug, Copy, Clone)]
pub struct FatEntry(pub u32);

/// The classification of a raw FAT cell by its low 28 bits.
pub open spec fn status_of(raw: u32) -> Status {
    let v = raw & 0x0FFF_FFFFu32;
    if v == 0 {
        Status::Free
    } else if v == 1 || (0x0FFF_FFF0 <= v && v <= 0x0FFF_FFF6) {
        Status::Reserved
    } else if 2 <= v && v <= 0x0FFF_FFEF {
        Status::Data(Cluster(v))
    } else if v == 0x0FFF_FFF7 {
        Status::Bad
    } else {
        Status::Eoc(v)
    }
}

impl FatEntry {
    /// Returns the status of this FAT entry.
    pub fn status(&self) -> (s: Status)
        ensures
            s == status_of(self.0),
    {
        let entry_value: u32 = self.0 & 0x0FFF_FFFF;
        if entry_value == 0x0000_0000 {
            Status::Free
        } else if entry_value == 0x0000_0001 || (entry_value >= 0x0FFF_FFF0 && entry_value
            <= 0x0FFF_FFF6) {
            Status::Reserved
        } else if entry_value >= 0x0000_0002 && entry_value <= 0x0FFF_FFEF {
            proof {
                assert(entry_value & 0x0FFF_FFFFu32 == entry_value) by (bit_vector)
                    requires
                        entry_value <= 0x0FFF_FFEFu32,
                ;
            }
            Status::Data(Cluster::from(entry_value))
        } else if entry_value == 0x0FFF_FFF7 {
            Status::Bad
        } else {
            Status::Eoc(entry_value)
        }
    }
}

} // verus!
