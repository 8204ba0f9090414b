// Tests of the structures that are decoded from single sectors and entries.

use fat32::cluster::{Cluster, ClusterIter};
use fat32::ebpb::BiosParameterBlock;
use fat32::error::Error;
use fat32::fat::{FatEntry, Status};
use fat32::mbr::{Error as MbrError, MasterBootRecord};
use fat32::metadata::{Attributes, Date, Metadata, Time, Timestamp};
use fat32::model::Geometry;
use fat32::util::{copy_into, read_le_u16, read_le_u32};
use fat32::vfat::select_partition;

fn mbr_sector() -> Vec<u8> {
    let mut s = vec![0u8; 512];
    for i in 0..10 {
        s[436 + i] = 0xA0 + i as u8;
    }
    s[446] = 0x80;
    s[446 + 1] = 0x01;
    s[446 + 2] = 0x02;
    s[446 + 3] = 0x03;
    s[446 + 4] = 0x0C;
    s[446 + 5] = 0x05;
    s[446 + 6] = 0x06;
    s[446 + 7] = 0x07;
    s[446 + 8..446 + 12].copy_from_slice(&2048u32.to_le_bytes());
    s[446 + 12..446 + 16].copy_from_slice(&0x0102_0304u32.to_le_bytes());
    s[510] = 0x55;
    s[511] = 0xAA;
    s
}

fn bpb_sector() -> Vec<u8> {
    let mut s = vec![0u8; 512];
    s[11..13].copy_from_slice(&512u16.to_le_bytes());
    s[13] = 8;
    s[14..16].copy_from_slice(&32u16.to_le_bytes());
    s[16] = 2;
    s[28..32].copy_from_slice(&2048u32.to_le_bytes());
    s[32..36].copy_from_slice(&65536u32.to_le_bytes());
    s[36..40].copy_from_slice(&256u32.to_le_bytes());
    s[44..48].copy_from_slice(&2u32.to_le_bytes());
    s[510] = 0x55;
    s[511] = 0xAA;
    s
}

#[test]
fn little_endian_numbers_are_read() {
    let b = [0x34u8, 0x12, 0x78, 0x56, 0xBC, 0x9A];
    assert_eq!(read_le_u16(&b, 0), 0x1234);
    assert_eq!(read_le_u16(&b, 4), 0x9ABC);
    assert_eq!(read_le_u32(&b, 0), 0x5678_1234);
    assert_eq!(read_le_u32(&b, 2), 0x9ABC_5678);
}

#[test]
fn copy_into_leaves_the_rest_alone() {
    let mut dst = [9u8; 8];
    copy_into(&mut dst, 2, &[1, 2, 3, 4, 5], 1, 3);
    assert_eq!(dst, [9, 9, 2, 3, 4, 9, 9, 9]);
    copy_into(&mut dst, 8, &[1], 1, 0);
    assert_eq!(dst, [9, 9, 2, 3, 4, 9, 9, 9]);
}

#[test]
fn cluster_drops_the_reserved_bits() {
    assert_eq!(Cluster::from(0xF000_0005).get(), 5);
    assert_eq!(Cluster::from(0x0FFF_FFFF).get(), 0x0FFF_FFFF);
    assert_eq!(Cluster::from(0xFFFF_FFFF).get(), 0x0FFF_FFFF);
    assert_eq!(Cluster::from(0).get(), 0);
    assert_eq!(Cluster::from(7), Cluster::from(0x1000_0007));
    let it = Cluster::from(9).iter();
    assert_eq!(it, ClusterIter { current: Cluster::from(9), eoc_occurred: false });
    assert_eq!(ClusterIter::from(Cluster::from(9)), it);
}

#[test]
fn fat_entry_status_covers_every_range() {
    assert_eq!(FatEntry(0x0000_0000).status(), Status::Free);
    assert_eq!(FatEntry(0xF000_0000).status(), Status::Free);
    assert_eq!(FatEntry(0x0000_0001).status(), Status::Reserved);
    assert_eq!(FatEntry(0x0FFF_FFF0).status(), Status::Reserved);
    assert_eq!(FatEntry(0x0FFF_FFF6).status(), Status::Reserved);
    assert_eq!(FatEntry(0x0000_0002).status(), Status::Data(Cluster::from(2)));
    assert_eq!(FatEntry(0x0FFF_FFEF).status(), Status::Data(Cluster::from(0x0FFF_FFEF)));
    assert_eq!(FatEntry(0xA000_0010).status(), Status::Data(Cluster::from(0x10)));
    assert_eq!(FatEntry(0x0FFF_FFF7).status(), Status::Bad);
    assert_eq!(FatEntry(0x0FFF_FFF8).status(), Status::Eoc(0x0FFF_FFF8));
    assert_eq!(FatEntry(0x0FFF_FFFF).status(), Status::Eoc(0x0FFF_FFFF));
    assert_eq!(FatEntry(0xFFFF_FFFF).status(), Status::Eoc(0x0FFF_FFFF));
}

#[test]
fn empty_values_are_zero() {
    assert_eq!(Date::empty(), Date(0));
    assert_eq!(Time::empty(), Time(0));
    assert_eq!(Timestamp::empty(), Timestamp { date: Date(0), time: Time(0) });
    assert_eq!(Date::default(), Date(0));
    assert_eq!(Time::default(), Time(0));
    assert_eq!(Attributes::default(), Attributes(0));
    assert_eq!(Timestamp::default(), Timestamp::empty());
    let m = Metadata::default();
    assert!(!m.read_only());
    assert!(!m.hidden());
    assert_eq!(m.created(), Timestamp::empty());
    assert_eq!(m.accessed(), Timestamp::empty());
    assert_eq!(m.modified(), Timestamp::empty());
}

#[test]
fn attributes_are_tested_by_mask_and_by_value() {
    let a = Attributes(0x21);
    assert!(a.has_flag(Attributes::READ_ONLY));
    assert!(a.has_flag(Attributes::ARCHIVE));
    assert!(!a.has_flag(Attributes::HIDDEN));
    assert!(!a.has_flag(Attributes::SYSTEM));
    assert!(!a.has_flag(Attributes::VOLUME_ID));
    assert!(!a.has_flag(Attributes::DIRECTORY));
    assert!(a.has_flag(Attributes::LFN));
    assert!(!a.equal_to(Attributes::LFN));
    assert!(Attributes(0x0F).equal_to(Attributes::LFN));
    assert!(!Attributes(0x1F).equal_to(Attributes::LFN));
    assert!(a.equal_to(0x21));
}

#[test]
fn timestamp_unpacks_date_and_time() {
    // 2018-03-15 13:45:30
    let t = Timestamp {
        date: Date(((2018 - 1980) << 9) | (3 << 5) | 15),
        time: Time((13 << 11) | (45 << 5) | 15),
    };
    assert_eq!(t.year(), 2018);
    assert_eq!(t.month(), 3);
    assert_eq!(t.day(), 15);
    assert_eq!(t.hour(), 13);
    assert_eq!(t.minute(), 45);
    assert_eq!(t.second(), 30);
    let t = Timestamp { date: Date(0xFFFF), time: Time(0xFFFF) };
    assert_eq!(t.year(), 2107);
    assert_eq!(t.month(), 15);
    assert_eq!(t.day(), 31);
    assert_eq!(t.hour(), 31);
    assert_eq!(t.minute(), 63);
    assert_eq!(t.second(), 62);
    let t = Timestamp::empty();
    assert_eq!(t.year(), 1980);
    assert_eq!(t.month(), 0);
    assert_eq!(t.second(), 0);
}

#[test]
fn mbr_is_decoded() {
    let m = MasterBootRecord::parse(&mbr_sector()).unwrap();
    assert_eq!(m.signature, 0xAA55);
    assert_eq!(m.disk_id, [0xA0, 0xA1, 0xA2, 0xA3, 0xA4, 0xA5, 0xA6, 0xA7, 0xA8, 0xA9]);
    let p = m.partitions[0];
    assert_eq!(p.bootable, 0x80);
    assert_eq!(p.starting_chs.head, 0x01);
    assert_eq!(p.starting_chs.sector_cylinder, 0x0302);
    assert_eq!(p.partition_type, 0x0C);
    assert_eq!(p.ending_chs.head, 0x05);
    assert_eq!(p.ending_chs.sector_cylinder, 0x0706);
    assert_eq!(p.relative_sector, 2048);
    assert_eq!(p.len, 0x0102_0304);
    assert_eq!(m.partitions[1].partition_type, 0);
    assert_eq!(m.find_fat32_partition(), Some(p));
}

#[test]
fn mbr_without_signature_is_rejected() {
    let mut s = mbr_sector();
    s[510] = 0x00;
    s[511] = 0x00;
    assert!(matches!(MasterBootRecord::parse(&s), Err(MbrError::BadSignature)));
    let mut s = mbr_sector();
    s[510] = 0xAA;
    s[511] = 0x55;
    assert!(matches!(MasterBootRecord::parse(&s), Err(MbrError::BadSignature)));
    assert!(matches!(MasterBootRecord::parse(&mbr_sector()[..511]), Err(MbrError::BadSignature)));
    assert!(matches!(MasterBootRecord::parse(&[]), Err(MbrError::BadSignature)));
}

#[test]
fn mbr_with_unknown_boot_indicator_names_the_partition() {
    let mut s = mbr_sector();
    s[446 + 32] = 0x42;
    assert!(matches!(MasterBootRecord::parse(&s), Err(MbrError::UnknownBootIndicator(2))));
    s[446 + 16] = 0x01;
    assert!(matches!(MasterBootRecord::parse(&s), Err(MbrError::UnknownBootIndicator(1))));
    // the signature is checked first
    s[511] = 0;
    assert!(matches!(MasterBootRecord::parse(&s), Err(MbrError::BadSignature)));
}

#[test]
fn mbr_first_fat32_partition_is_found() {
    let mut s = mbr_sector();
    s[446 + 4] = 0x83;
    assert_eq!(MasterBootRecord::parse(&s).unwrap().find_fat32_partition(), None);
    s[446 + 16 + 4] = 0x0B;
    s[446 + 16 + 8] = 7;
    s[446 + 32 + 4] = 0x0C;
    s[446 + 32 + 8] = 9;
    let p = MasterBootRecord::parse(&s).unwrap().find_fat32_partition().unwrap();
    assert_eq!(p.partition_type, 0x0B);
    assert_eq!(p.relative_sector, 7);
}

#[test]
fn partition_to_mount_is_the_first_fat32_partition() {
    let mut s = mbr_sector();
    let m = MasterBootRecord::parse(&s).unwrap();
    assert_eq!(select_partition(&m).unwrap(), m.partitions[0]);
    s[446 + 4] = 0x83;
    s[446 + 48 + 4] = 0x0B;
    s[446 + 48 + 8] = 11;
    let m = MasterBootRecord::parse(&s).unwrap();
    let p = select_partition(&m).unwrap();
    assert_eq!(p.partition_type, 0x0B);
    assert_eq!(p.relative_sector, 11);
}

#[test]
fn record_without_a_fat32_partition_is_not_found() {
    let mut s = mbr_sector();
    for i in 0..4 {
        s[446 + 16 * i + 4] = 0x83;
    }
    let m = MasterBootRecord::parse(&s).unwrap();
    assert!(matches!(select_partition(&m), Err(Error::NotFound)));
    s[446 + 4] = 0x00;
    let m = MasterBootRecord::parse(&s).unwrap();
    assert!(matches!(select_partition(&m), Err(Error::NotFound)));
}

#[test]
fn clusters_are_ordered_by_number() {
    assert!(Cluster::from(2) < Cluster::from(3));
    assert!(Cluster::from(0xF000_0002) < Cluster::from(3));
    assert_eq!(Cluster::from(9).max(Cluster::from(4)), Cluster::from(9));
    let mut v = vec![Cluster::from(5), Cluster::from(2), Cluster::from(11)];
    v.sort();
    assert_eq!(v, vec![Cluster::from(2), Cluster::from(5), Cluster::from(11)]);
}

#[test]
fn ebpb_is_decoded() {
    let b = BiosParameterBlock::parse(&bpb_sector()).unwrap();
    assert_eq!(b.bytes_per_sector, 512);
    assert_eq!(b.sectors_per_cluster, 8);
    assert_eq!(b.reserved_sectors, 32);
    assert_eq!(b.fat_num, 2);
    assert_eq!(b.logical_sectors_2, 0);
    assert_eq!(b.sector_per_fat_2, 0);
    assert_eq!(b.hidden_sectors, 2048);
    assert_eq!(b.logical_sectors_4, 65536);
    assert_eq!(b.sector_per_fat_4, 256);
    assert_eq!(b.root_cluster, 2);
    assert_eq!(b.bootable_signature, 0xAA55);
    assert_eq!(b.get_sector_per_fat(), 256);
    assert_eq!(b.get_logical_sectors(), 65536);
}

#[test]
fn ebpb_prefers_the_short_fields_when_set() {
    let mut s = bpb_sector();
    s[19..21].copy_from_slice(&4000u16.to_le_bytes());
    s[22..24].copy_from_slice(&9u16.to_le_bytes());
    let b = BiosParameterBlock::parse(&s).unwrap();
    assert_eq!(b.get_sector_per_fat(), 9);
    assert_eq!(b.get_logical_sectors(), 4000);
}

#[test]
fn ebpb_without_signature_is_rejected() {
    let mut s = bpb_sector();
    s[510] = 0;
    assert!(matches!(BiosParameterBlock::parse(&s), Err(Error::BadSignature)));
    assert!(matches!(BiosParameterBlock::parse(&bpb_sector()[..100]), Err(Error::BadSignature)));
}

#[test]
fn geometry_is_computed_from_the_parameter_block() {
    let b = BiosParameterBlock::parse(&bpb_sector()).unwrap();
    let g = Geometry::compute(2048, &b);
    assert_eq!(g.bytes_per_sector, 512);
    assert_eq!(g.sectors_per_cluster, 8);
    assert_eq!(g.sectors_per_fat, 256);
    assert_eq!(g.fat_start_sector, 2080);
    assert_eq!(g.data_start_sector, 2592);
    assert_eq!(g.root_dir_cluster, Cluster::from(2));
    assert!(g.is_valid());
    let mut s = bpb_sector();
    s[44..48].copy_from_slice(&0xF000_0002u32.to_le_bytes());
    s[11..13].copy_from_slice(&510u16.to_le_bytes());
    let g = Geometry::compute(u32::MAX, &BiosParameterBlock::parse(&s).unwrap());
    assert_eq!(g.root_dir_cluster.get(), 2);
    assert_eq!(g.fat_start_sector, u32::MAX as u64 + 32);
    assert!(!g.is_valid());
}
