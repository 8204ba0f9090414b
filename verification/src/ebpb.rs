use vstd::prelude::*;
use crate::error::Error;
use crate::traits::BlockDevice;
use crate::util::{le_u16, le_u32, read_le_u16, read_le_u32};

verus! {

/// The fields of the FAT32 extended BIOS parameter block that describe the
/// geometry of the volume, and its boot signature.
#[derive(PartialEq, Eq, Structural, Debug, Copy, Clone)]
pub struct BiosParameterBlock {
    /// The size of a logical sector in bytes.
    pub bytes_per_sector: u16,
    pub sectors_per_cluster: u8,
    /// The number of sectors before the first file allocation table.
    pub reserved_sectors: u16,
    /// The number of file allocation tables.
    pub fat_num: u8,
    /// The number of sectors of the volume, or 0 if `logical_sectors_4` holds it.
    pub logical_sectors_2: u16,
    /// The number of sectors of one table, or 0 if `sector_per_fat_4` holds it.
    pub sector_per_fat_2: u16,
    pub hidden_sectors: u32,
    pub logical_sectors_4: u32,
    pub sector_per_fat_4: u32,
    /// The cluster at which the root directory starts.
    pub root_cluster: u32,
    /// `0xAA55` in a valid block.
    pub bootable_signature: u16,
}

/// The block that the sector `b` encodes.
pub open spec fn bpb_of(b: Seq<u8>) -> BiosParameterBlock {
    BiosParameterBlock {
        bytes_per_sector: le_u16(b, 11),
        sectors_per_cluster: b[13],
        reserved_sectors: le_u16(b, 14),
        fat_num: b[16],
        logical_sectors_2: le_u16(b, 19),
        sector_per_fat_2: le_u16(b, 22),
        hidden_sectors: le_u32(b, 28),
        logical_sectors_4: le_u32(b, 32),
        sector_per_fat_4: le_u32(b, 36),
        root_cluster: le_u32(b, 44),
        bootable_signature: le_u16(b, 510),
    }
}

/// Whether the sector `b` is long enough and carries the boot signature.
pub open spec fn valid_bpb(b: Seq<u8>) -> bool {
    b.len() >= 512 && le_u16(b, 510) == 0xAA55
}

impl BiosParameterBlock {
    /// The number of sectors of one file allocation table: the 16-bit field
    /// if it is not zero, else the 32-bit field.
    pub open spec fn spec_sectors_per_fat(&self) -> u32 {
        if self.sector_per_fat_2 != 0 {
            self.sector_per_fat_2 as u32
        } else {
            self.sector_per_fat_4
        }
    }

    /// The number of sectors of the volume: the 16-bit field if it is not
    /// zero, else the 32-bit field.
    pub open spec fn spec_logical_sectors(&self) -> u32 {
        if self.logical_sectors_2 != 0 {
            self.logical_sectors_2 as u32
        } else {
            self.logical_sectors_4
        }
    }

    /// The number of sectors of one file allocation table.
    #[verifier::when_used_as_spec(spec_sectors_per_fat)]
    pub fn get_sector_per_fat(&self) -> (n: u32)
        ensures
            n == self.spec_sectors_per_fat(),
    {
        if self.sector_per_fat_2 != 0 {
            self.sector_per_fat_2 as u32
        } else {
            self.sector_per_fat_4
        }
    }

    /// The number of sectors of the volume.
    #[verifier::when_used_as_spec(spec_logical_sectors)]
    pub fn get_logical_sectors(&self) -> (n: u32)
        ensures
            n == self.spec_logical_sectors(),
    {
        if self.logical_sectors_2 != 0 {
            self.logical_sectors_2 as u32
        } else {
            self.logical_sectors_4
        }
    }

    /// Decodes the BIOS parameter block in `sector`. A sector that is too
    /// short, or does not carry the signature `0xAA55` at offset 510, gives
    /// `BadSignature`.
    pub fn parse(sector: &[u8]) -> (r: Result<BiosParameterBlock, Error>)
        ensures
            match r {
                Ok(bpb) => valid_bpb(sector@) && bpb == bpb_of(sector@),
                Err(Error::BadSignature) => !valid_bpb(sector@),
                Err(_) => false,
            },
    {
        if sector.len() < 512 {
            return Err(Error::BadSignature);
        }
        let bpb = BiosParameterBlock {
            bytes_per_sector: read_le_u16(sector, 11),
            sectors_per_cluster: sector[13],
            reserved_sectors: read_le_u16(sector, 14),
            fat_num: sector[16],
            logical_sectors_2: read_le_u16(sector, 19),
            sector_per_fat_2: read_le_u16(sector, 22),
            hidden_sectors: read_le_u32(sector, 28),
            logical_sectors_4: read_le_u32(sector, 32),
            sector_per_fat_4: read_le_u32(sector, 36),
            root_cluster: read_le_u32(sector, 44),
            bootable_signature: read_le_u16(sector, 510),
        };
        if bpb.bootable_signature != 0xAA55 {
            Err(Error::BadSignature)
        } else {
            Ok(bpb)
        }
    }

    /// Reads the BIOS parameter block from sector `sector` of `device`.
    ///
    /// Whatever the device delivers is decoded by
    /// [`BiosParameterBlock::parse`]; a failure of the device is handed on
    /// as `Io`.
    pub fn from<T: BlockDevice>(device: &mut T, sector: u64) -> (r: Result<
        BiosParameterBlock,
        Error,
    >)
        ensures
            final(device).spec_sector_size() == old(device).spec_sector_size(),
            match r {
                Ok(bpb) => bpb.bootable_signature == 0xAA55,
                Err(e) => e is Io || e is BadSignature,
            },
    {
        let mut buf: Vec<u8> = vec![0u8; 512];
        match device.read_sector(sector, buf.as_mut_slice()) {
            Err(e) => Err(Error::Io(e)),
            Ok(_) => Self::parse(buf.as_slice()),
        }
    }
}

} // verus!
