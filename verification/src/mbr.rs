use vstd::prelude::*;
use crate::traits::BlockDevice;
use crate::util::{le_u16, le_u32, read_le_u16, read_le_u32};

verus! {

/// A cylinder-head-sector address. The driver carries it and never uses it.
#[derive(PartialEq, Eq, Structural, Debug, Copy, Clone)]
pub struct CHS {
    pub head: u8,
    pub sector_cylinder: u16,
}

/// One of the four entries of the partition table.
#[derive(PartialEq, Eq, Structural, Debug, Copy, Clone)]
pub struct PartitionEntry {
    /// `0x80` for a bootable partition, `0x00` otherwise.
    pub bootable: u8,
    pub starting_chs: CHS,
    /// `0x0B` or `0x0C` for FAT32.
    pub partition_type: u8,
    pub ending_chs: CHS,
    /// The sector of the disk at which the partition starts.
    pub relative_sector: u32,
    /// The number of sectors in the partition.
    pub len: u32,
}

/// The master boot record: what the first sector of a disk holds after its
/// bootstrap code.
#[derive(Debug, Copy, Clone)]
pub struct MasterBootRecord {
    pub disk_id: [u8; 10],
    pub partitions: [PartitionEntry; 4],
    /// `0xAA55` in a valid record.
    pub signature: u16,
}

/// Why the master boot record was not accepted.
#[derive(Debug)]
pub enum Error {
    /// The device failed while the record was read.
    Io(std::io::Error),
    /// The partition of this index has an unknown boot indicator.
    UnknownBootIndicator(u8),
    /// The record does not end in the signature `0x55 0xAA`.
    BadSignature,
}

/// The size of the record, and the offsets of its parts.
pub const MBR_SIZE: usize = 512;

pub const DISK_ID_OFFSET: usize = 436;

pub const PARTITION_TABLE_OFFSET: usize = 446;

pub const PARTITION_ENTRY_SIZE: usize = 16;

pub const SIGNATURE_OFFSET: usize = 510;

pub const SIGNATURE: u16 = 0xAA55;

/// The partition entry that the 16 bytes at offset `at` of `b` encode.
pub open spec fn partition_entry_at(b: Seq<u8>, at: int) -> PartitionEntry {
    PartitionEntry {
        bootable: b[at],
        starting_chs: CHS { head: b[at + 1], sector_cylinder: le_u16(b, at + 2) },
        partition_type: b[at + 4],
        ending_chs: CHS { head: b[at + 5], sector_cylinder: le_u16(b, at + 6) },
        relative_sector: le_u32(b, at + 8),
        len: le_u32(b, at + 12),
    }
}

/// The partition entry of index `i` in the sector `b`.
pub open spec fn partition_of(b: Seq<u8>, i: int) -> PartitionEntry {
    partition_entry_at(b, 446 + 16 * i)
}

/// Whether a boot indicator is one of the two known values.
pub open spec fn known_boot_indicator(v: u8) -> bool {
    v == 0x00 || v == 0x80
}

/// Whether the sector `b` ends in the boot signature.
pub open spec fn has_signature(b: Seq<u8>) -> bool {
    b.len() >= 512 && b[510] == 0x55 && b[511] == 0xAA
}

/// Whether `i` is the first partition of the sector `b` whose boot
/// indicator is unknown.
pub open spec fn first_unknown_indicator(b: Seq<u8>, i: int) -> bool {
    &&& 0 <= i < 4
    &&& !known_boot_indicator(partition_of(b, i).bootable)
    &&& forall|j: int| 0 <= j < i ==> known_boot_indicator(#[trigger] partition_of(b, j).bootable)
}

/// Whether the sector `b` is a valid master boot record.
pub open spec fn valid_mbr(b: Seq<u8>) -> bool {
    &&& has_signature(b)
    &&& forall|j: int| 0 <= j < 4 ==> known_boot_indicator(#[trigger] partition_of(b, j).bootable)
}

impl MasterBootRecord {
    /// Whether this record is what the sector `b` encodes.
    pub open spec fn encoded_by(&self, b: Seq<u8>) -> bool {
        &&& b.len() >= 512
        &&& self.disk_id@ == b.subrange(436, 446)
        &&& self.signature == le_u16(b, 510)
        &&& forall|j: int| 0 <= j < 4 ==> #[trigger] self.partitions@[j] == partition_of(b, j)
    }

    /// Decodes one partition entry.
    fn parse_partition(sector: &[u8], at: usize) -> (p: PartitionEntry)
        requires
            at + 16 <= sector@.len(),
        ensures
            p == partition_entry_at(sector@, at as int),
    {
        PartitionEntry {
            bootable: sector[at],
            starting_chs: CHS { head: sector[at + 1], sector_cylinder: read_le_u16(sector, at + 2) },
            partition_type: sector[at + 4],
            ending_chs: CHS { head: sector[at + 5], sector_cylinder: read_le_u16(sector, at + 6) },
            relative_sector: read_le_u32(sector, at + 8),
            len: read_le_u32(sector, at + 12),
        }
    }

    /// Decodes and validates the master boot record in `sector`.
    ///
    /// The signature is checked first: a sector that is too short to hold
    /// one, or holds another, gives `BadSignature`. Then the partitions are
    /// checked in order, and the first one whose boot indicator is neither
    /// `0x00` nor `0x80` gives `UnknownBootIndicator` with its index.
    pub fn parse(sector: &[u8]) -> (r: Result<MasterBootRecord, Error>)
        ensures
            match r {
                Ok(m) => valid_mbr(sector@) && m.encoded_by(sector@),
                Err(Error::BadSignature) => !has_signature(sector@),
                Err(Error::UnknownBootIndicator(i)) => has_signature(sector@)
                    && first_unknown_indicator(sector@, i as int),
                Err(Error::Io(_)) => false,
            },
    {
        if sector.len() < MBR_SIZE {
            return Err(Error::BadSignature);
        }
        let signature: u16 = read_le_u16(sector, SIGNATURE_OFFSET);
        if signature != SIGNATURE {
            return Err(Error::BadSignature);
        }
        assert(has_signature(sector@));
        let empty = PartitionEntry {
            bootable: 0,
            starting_chs: CHS { head: 0, sector_cylinder: 0 },
            partition_type: 0,
            ending_chs: CHS { head: 0, sector_cylinder: 0 },
            relative_sector: 0,
            len: 0,
        };
        let mut partitions: [PartitionEntry; 4] = [empty; 4];
        let mut index: usize = 0;
        while index < 4
            invariant
                index <= 4,
                sector@.len() >= 512,
                has_signature(sector@),
                forall|j: int| 0 <= j < index ==> #[trigger] partitions@[j] == partition_of(sector@, j),
                forall|j: int|
                    0 <= j < index ==> known_boot_indicator(
                        #[trigger] partition_of(sector@, j).bootable,
                    ),
            decreases 4 - index,
        {
            let partition = Self::parse_partition(
                sector,
                PARTITION_TABLE_OFFSET + PARTITION_ENTRY_SIZE * index,
            );
            if partition.bootable != 0x00 && partition.bootable != 0x80 {
                return Err(Error::UnknownBootIndicator(index as u8));
            }
            partitions[index] = partition;
            index += 1;
        }
        let mut disk_id: [u8; 10] = [0u8; 10];
        let mut k: usize = 0;
        while k < 10
            invariant
                k <= 10,
                sector@.len() >= 512,
                valid_mbr(sector@),
                signature == le_u16(sector@, 510),
                forall|j: int| 0 <= j < 4 ==> #[trigger] partitions@[j] == partition_of(sector@, j),
                forall|j: int| 0 <= j < k ==> disk_id@[j] == sector@[436 + j],
            decreases 10 - k,
        {
            disk_id[k] = sector[DISK_ID_OFFSET + k];
            k += 1;
        }
        assert(disk_id@ =~= sector@.subrange(436, 446));
        Ok(MasterBootRecord { disk_id, partitions, signature })
    }

    /// Reads the master boot record from sector 0 of `device`.
    ///
    /// Whatever the device delivers is decoded by [`MasterBootRecord::parse`];
    /// a failure of the device is handed on as `Io`.
    pub fn from<T: BlockDevice>(device: &mut T) -> (r: Result<MasterBootRecord, Error>)
        ensures
            final(device).spec_sector_size() == old(device).spec_sector_size(),
            r matches Ok(m) ==> exists|b: Seq<u8>| valid_mbr(b) && #[trigger] m.encoded_by(b),
            r matches Err(Error::UnknownBootIndicator(i)) ==> i < 4,
    {
        let mut buf: Vec<u8> = vec![0u8; 512];
        match device.read_sector(0, buf.as_mut_slice()) {
            Err(e) => Err(Error::Io(e)),
            Ok(_) => Self::parse(buf.as_slice()),
        }
    }

    /// Whether partition `i` of this record holds a FAT32 volume.
    pub open spec fn is_fat32(&self, i: int) -> bool {
        self.partitions@[i].partition_type == 0x0B || self.partitions@[i].partition_type == 0x0C
    }

    /// The first partition whose type is `0x0B` or `0x0C`, if there is one.
    pub fn find_fat32_partition(&self) -> (r: Option<PartitionEntry>)
        ensures
            match r {
                Some(p) => exists|i: int|
                    0 <= i < 4 && self.is_fat32(i) && p == self.partitions@[i] && forall|j: int|
                        0 <= j < i ==> !self.is_fat32(j),
                None => forall|j: int| 0 <= j < 4 ==> !self.is_fat32(j),
            },
    {
        let mut index: usize = 0;
        while index < 4
            invariant
                index <= 4,
                forall|j: int| 0 <= j < index ==> !self.is_fat32(j),
            decreases 4 - index,
        {
            let partition = self.partitions[index];
            if partition.partition_type == 0x0B || partition.partition_type == 0x0C {
                assert(self.is_fat32(index as int));
                return Some(partition);
            }
            index += 1;
        }
        None
    }
}

} // verus!
