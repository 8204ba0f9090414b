// Tests of the directory decoder on raw bytes.

use fat32::cluster::Cluster;
use fat32::dir::{
    parse_dir_entry, Dir, DirIter, LfnList, VFatDirEntrySafe, VFatLfnDirEntry, VFatRegularDirEntry,
    VFatUnknownDirEntry,
};
use fat32::entry::Entry;
use fat32::file::File;
use fat32::metadata::{Attributes, Date, Metadata, Time};
use fat32::name::{decode_file_name_utf16, decode_file_name_utf8_ascii};

fn regular(name: &[u8; 8], ext: &[u8; 3], attr: u8, cluster: u32, size: u32) -> [u8; 32] {
    let mut e = [0u8; 32];
    e[0..8].copy_from_slice(name);
    e[8..11].copy_from_slice(ext);
    e[11] = attr;
    e[12] = 0x18;
    e[13] = 0x64;
    e[14..16].copy_from_slice(&0x1122u16.to_le_bytes());
    e[16..18].copy_from_slice(&0x3344u16.to_le_bytes());
    e[18..20].copy_from_slice(&0x5566u16.to_le_bytes());
    e[20..22].copy_from_slice(&((cluster >> 16) as u16).to_le_bytes());
    e[22..24].copy_from_slice(&0x7788u16.to_le_bytes());
    e[24..26].copy_from_slice(&0x99AAu16.to_le_bytes());
    e[26..28].copy_from_slice(&(cluster as u16).to_le_bytes());
    e[28..32].copy_from_slice(&size.to_le_bytes());
    e
}

fn lfn_units(seq: u8, units: &[u16; 13]) -> [u8; 32] {
    let mut e = [0u8; 32];
    e[0] = seq;
    e[11] = 0x0F;
    e[13] = 0xC5;
    for i in 0..5 {
        e[1 + 2 * i..3 + 2 * i].copy_from_slice(&units[i].to_le_bytes());
    }
    for i in 0..6 {
        e[14 + 2 * i..16 + 2 * i].copy_from_slice(&units[5 + i].to_le_bytes());
    }
    for i in 0..2 {
        e[28 + 2 * i..30 + 2 * i].copy_from_slice(&units[11 + i].to_le_bytes());
    }
    e
}

fn lfn(seq: u8, text: &str) -> [u8; 32] {
    let mut units: Vec<u16> = text.encode_utf16().collect();
    if units.len() < 13 {
        units.push(0);
    }
    while units.len() < 13 {
        units.push(0xFFFF);
    }
    let mut a = [0u16; 13];
    a.copy_from_slice(&units);
    lfn_units(seq, &a)
}

fn lfn_entry(seq: u8, text: &str) -> VFatLfnDirEntry {
    VFatLfnDirEntry::parse(&lfn(seq, text))
}

fn dir_iter(entries: &[[u8; 32]]) -> DirIter {
    let mut buf = Vec::new();
    for e in entries {
        buf.extend_from_slice(e);
    }
    // a directory fills whole clusters: what follows the entries is zero
    buf.resize(512, 0);
    DirIter { buf, long_file_name: LfnList::new(), pos: 0 }
}

#[test]
fn regular_entry_is_decoded_field_by_field() {
    let e = VFatRegularDirEntry::parse(&regular(b"HELLO   ", b"TXT", 0x21, 0x0012_3456, 0xDEAD_BEEF));
    assert_eq!(&e.name, b"HELLO   ");
    assert_eq!(&e.extension, b"TXT");
    assert_eq!(e.attribute, Attributes(0x21));
    assert_eq!(e.reserved, 0x18);
    assert_eq!(e.creation_time_tenth, 0x64);
    assert_eq!(e.create_time, Time(0x1122));
    assert_eq!(e.create_date, Date(0x3344));
    assert_eq!(e.last_access_date, Date(0x5566));
    assert_eq!(e.first_cluster_high, 0x0012);
    assert_eq!(e.last_modification_time, Time(0x7788));
    assert_eq!(e.last_modification_date, Date(0x99AA));
    assert_eq!(e.first_cluster_low, 0x3456);
    assert_eq!(e.size, 0xDEAD_BEEF);
}

#[test]
fn lfn_entry_is_decoded_field_by_field() {
    let units = [1u16, 2, 3, 4, 5, 6, 7, 8, 9, 10, 11, 0x1234, 0xABCD];
    let mut raw = lfn_units(0x43, &units);
    raw[26] = 0x21;
    raw[27] = 0x43;
    let e = VFatLfnDirEntry::parse(&raw);
    assert_eq!(e.seq_number, 0x43);
    assert_eq!(e.name, [1, 2, 3, 4, 5]);
    assert_eq!(e.attribute, Attributes(0x0F));
    assert_eq!(e.dir_type, 0);
    assert_eq!(e.checksum, 0xC5);
    assert_eq!(e.name2, [6, 7, 8, 9, 10, 11]);
    assert_eq!(e.reserved, 0x4321);
    assert_eq!(e.name3, [0x1234, 0xABCD]);
}

#[test]
fn unknown_entry_keeps_flag_and_attributes() {
    let raw = regular(b"HELLO   ", b"TXT", 0x21, 5, 6);
    let e = VFatUnknownDirEntry::parse(&raw);
    assert_eq!(e.flag, b'H');
    assert_eq!(e.attribute, Attributes(0x21));
    assert_eq!(&e.unknown_1[..], &raw[1..11]);
    assert_eq!(&e.unknown_2[..], &raw[12..32]);
}

#[test]
fn entries_are_told_apart() {
    let r = regular(b"A       ", b"   ", 0x20, 5, 6);
    assert!(matches!(parse_dir_entry(&r), VFatDirEntrySafe::Regular(_)));
    assert!(matches!(parse_dir_entry(&lfn(1, "a")), VFatDirEntrySafe::Lfn(_)));
    let mut deleted = r;
    deleted[0] = 0xE5;
    assert!(matches!(parse_dir_entry(&deleted), VFatDirEntrySafe::Deleted));
    let mut end = r;
    end[0] = 0x00;
    assert!(matches!(parse_dir_entry(&end), VFatDirEntrySafe::End));
    // the attribute is looked at first
    let mut deleted_lfn = lfn(1, "a");
    deleted_lfn[0] = 0xE5;
    assert!(matches!(parse_dir_entry(&deleted_lfn), VFatDirEntrySafe::Lfn(_)));
    let mut empty_lfn = lfn(1, "a");
    empty_lfn[0] = 0x00;
    assert!(matches!(parse_dir_entry(&empty_lfn), VFatDirEntrySafe::Lfn(_)));
    // 0x0F as a mask is not enough
    let mut masked = r;
    masked[11] = 0x2F;
    assert!(matches!(parse_dir_entry(&masked), VFatDirEntrySafe::Regular(_)));
}

#[test]
fn short_name_part_stops_at_nul_or_space() {
    assert_eq!(decode_file_name_utf8_ascii(b"HELLO   "), "HELLO");
    assert_eq!(decode_file_name_utf8_ascii(b"HELLOWOR"), "HELLOWOR");
    assert_eq!(decode_file_name_utf8_ascii(b"AB\0CD   "), "AB");
    assert_eq!(decode_file_name_utf8_ascii(b"A B     "), "A");
    assert_eq!(decode_file_name_utf8_ascii(b"        "), "");
    assert_eq!(decode_file_name_utf8_ascii(b""), "");
    // a byte from 0x80 on is taken as the character of that code point
    assert_eq!(decode_file_name_utf8_ascii(&[b'A', 0xE9, b'B', b' ']), "A\u{e9}B");
}

#[test]
fn long_name_stops_at_its_terminator() {
    let units: Vec<u16> = "name.txt".encode_utf16().collect();
    assert_eq!(decode_file_name_utf16(&units), "name.txt");
    let mut padded = units.clone();
    padded.extend_from_slice(&[0x0000, 0xFFFF, b'x' as u16]);
    assert_eq!(decode_file_name_utf16(&padded), "name.txt");
    let mut cut = units.clone();
    cut.insert(4, 0xFFFF);
    assert_eq!(decode_file_name_utf16(&cut), "name");
    // 0x00FF is a letter, not a terminator
    assert_eq!(decode_file_name_utf16(&[b'a' as u16, 0x00FF, b'b' as u16]), "a\u{ff}b");
    assert_eq!(decode_file_name_utf16(&[]), "");
}

#[test]
fn long_name_decodes_utf16() {
    // a surrogate pair, and a surrogate without its partner
    let units = [0xD834u16, 0xDD1E, b'm' as u16, 0xD800, b'u' as u16];
    assert_eq!(decode_file_name_utf16(&units), "\u{1D11E}m\u{FFFD}u");
    let units: Vec<u16> = "\u{65e5}\u{672c}\u{8a9e}.txt".encode_utf16().collect();
    assert_eq!(decode_file_name_utf16(&units), "\u{65e5}\u{672c}\u{8a9e}.txt");
}

#[test]
fn lfn_list_starts_empty_and_clears() {
    let mut l = LfnList::new();
    assert!(l.is_empty());
    l.push(lfn_entry(0x41, "a.txt"));
    assert!(!l.is_empty());
    l.clear();
    assert!(l.is_empty());
    assert_eq!(l.decode(), "");
}

#[test]
fn lfn_list_decodes_by_sequence_number() {
    // the parts as they stand in a directory: the last part first
    let mut l = LfnList::new();
    l.push(lfn_entry(0x43, "cc"));
    l.push(lfn_entry(0x02, "bbbbbbbbbbbbb"));
    l.push(lfn_entry(0x01, "aaaaaaaaaaaaa"));
    assert_eq!(l.decode(), "aaaaaaaaaaaaabbbbbbbbbbbbbcc");
    assert!(l.is_empty());
    // the same parts in another order
    let mut l = LfnList::new();
    l.push(lfn_entry(0x02, "bbbbbbbbbbbbb"));
    l.push(lfn_entry(0x43, "cc"));
    l.push(lfn_entry(0x01, "aaaaaaaaaaaaa"));
    assert_eq!(l.decode(), "aaaaaaaaaaaaabbbbbbbbbbbbbcc");
    // and already in ascending order
    let mut l = LfnList::new();
    l.push(lfn_entry(0x01, "aaaaaaaaaaaaa"));
    l.push(lfn_entry(0x02, "bbbbbbbbbbbbb"));
    l.push(lfn_entry(0x43, "cc"));
    assert_eq!(l.decode(), "aaaaaaaaaaaaabbbbbbbbbbbbbcc");
}

#[test]
fn lfn_list_keeps_the_order_of_equal_sequence_numbers() {
    let mut l = LfnList::new();
    l.push(lfn_entry(0x01, "1234567890abc"));
    l.push(lfn_entry(0x11, "ABCDEFGHIJKLM"));
    l.push(lfn_entry(0x00, "zzzzzzzzzzzzz"));
    // 0x11 counts as 1: only the low four bits are the sequence number
    assert_eq!(l.decode(), "zzzzzzzzzzzzz1234567890abcABCDEFGHIJKLM");
}

#[test]
fn lfn_list_cuts_at_the_first_terminator() {
    // the parts are joined before the name is cut: a part that is not
    // full ends the name
    let mut l = LfnList::new();
    l.push(lfn_entry(0x42, "LONG"));
    l.push(lfn_entry(0x01, "VERY_"));
    assert_eq!(l.decode(), "VERY_");
    let mut l = LfnList::new();
    l.push(lfn_entry(0x42, "LONG"));
    l.push(lfn_entry(0x01, "VERY_VERY_VER"));
    assert_eq!(l.decode(), "VERY_VERY_VERLONG");
}

#[test]
fn trimming_takes_exactly_the_white_space_characters() {
    let white = |u: u32| {
        (0x0009..=0x000D).contains(&u)
            || u == 0x0020
            || u == 0x0085
            || u == 0x00A0
            || u == 0x1680
            || (0x2000..=0x200A).contains(&u)
            || u == 0x2028
            || u == 0x2029
            || u == 0x202F
            || u == 0x205F
            || u == 0x3000
    };
    let mut count = 0;
    for u in 1u32..0xFFFF {
        let c = match char::from_u32(u) {
            Some(c) => c,
            None => continue,
        };
        let mut units = [0xFFFFu16; 13];
        units[0] = u as u16;
        units[1] = b'x' as u16;
        units[2] = u as u16;
        units[3] = 0;
        let mut l = LfnList::new();
        l.push(VFatLfnDirEntry::parse(&lfn_units(0x41, &units)));
        let name = l.decode();
        if white(u) {
            count += 1;
            assert_eq!(name, "x", "U+{:04X} is white space", u);
        } else {
            let expected: String = [c, 'x', c].iter().collect();
            assert_eq!(name, expected, "U+{:04X} is not white space", u);
        }
    }
    assert_eq!(count, 25);
    // beyond the basic plane nothing is white space
    let mut l = LfnList::new();
    let mut units = [0xFFFFu16; 13];
    units[0] = 0xD834;
    units[1] = 0xDD1E;
    units[2] = 0;
    l.push(VFatLfnDirEntry::parse(&lfn_units(0x41, &units)));
    assert_eq!(l.decode(), "\u{1D11E}");
}

#[test]
fn lfn_list_trims_the_name() {
    let mut l = LfnList::new();
    l.push(lfn_entry(0x41, " \t name x \u{a0}"));
    assert_eq!(l.decode(), "name x");
}

#[test]
fn regular_entry_after_long_names_takes_the_long_name() {
    let mut it = dir_iter(&[
        lfn(0x42, "LONG"),
        lfn(0x01, "VERY_LONG_NAM"),
        regular(b"VERYLO~1", b"   ", 0x20, 0xF012_3456, 1024),
        regular(b"NEXT    ", b"BIN", 0x20, 9, 1),
    ]);
    let e = it.next().unwrap();
    assert_eq!(e.name(), "VERY_LONG_NAMLONG");
    let f = e.as_file().unwrap();
    assert_eq!(f.size, 1024);
    assert_eq!(f.offset, 0);
    assert_eq!(f.cluster, Cluster::from(0x0012_3456));
    assert_eq!(it.pos, 96);
    assert!(it.long_file_name.is_empty());
    // the long name is used up
    assert_eq!(it.next().unwrap().name(), "NEXT.BIN");
    assert!(it.next().is_none());
}

#[test]
fn short_names_join_name_and_extension() {
    let mut it = dir_iter(&[
        regular(b"README  ", b"MD ", 0x20, 3, 1),
        regular(b"NOEXT   ", b"   ", 0x20, 3, 1),
        regular(b"NUL     ", b"\0XT", 0x20, 3, 1),
        regular(b"FULLNAME", b"EXT", 0x20, 3, 1),
    ]);
    assert_eq!(it.next().unwrap().name(), "README.MD");
    assert_eq!(it.next().unwrap().name(), "NOEXT");
    assert_eq!(it.next().unwrap().name(), "NUL");
    assert_eq!(it.next().unwrap().name(), "FULLNAME.EXT");
    assert!(it.next().is_none());
}

#[test]
fn directory_attribute_makes_a_directory() {
    let mut it = dir_iter(&[
        regular(b"SUB     ", b"   ", 0x10, 7, 99),
        regular(b"FILE    ", b"   ", 0x27, 8, 99),
    ]);
    let d = it.next().unwrap();
    assert!(d.is_dir());
    assert!(!d.is_file());
    assert!(d.as_file().is_none());
    assert_eq!(d.as_dir().unwrap().cluster, Cluster::from(7));
    assert_eq!(d.as_dir().unwrap().name, "SUB");
    let d = d.into_dir().unwrap();
    assert_eq!(d.metadata.created.time, Time(0x1122));
    assert_eq!(d.metadata.created.date, Date(0x3344));
    assert_eq!(d.metadata.last_accessed.date, Date(0x5566));
    assert_eq!(d.metadata.last_accessed.time, Time(0));
    assert_eq!(d.metadata.last_modified.time, Time(0x7788));
    assert_eq!(d.metadata.last_modified.date, Date(0x99AA));
    let f = it.next().unwrap();
    assert!(f.is_file());
    assert!(f.as_dir().is_none());
    assert!(f.metadata().read_only());
    assert!(f.metadata().hidden());
    let f = f.into_file().unwrap();
    assert_eq!(f.size(), 99);
    assert_eq!(f.cluster, Cluster::from(8));
}

#[test]
fn into_the_other_kind_gives_nothing() {
    let mut it = dir_iter(&[
        regular(b"SUB     ", b"   ", 0x10, 7, 0),
        regular(b"FILE    ", b"   ", 0x20, 8, 0),
    ]);
    assert!(it.next().unwrap().into_file().is_none());
    assert!(it.next().unwrap().into_dir().is_none());
}

#[test]
fn deleted_entry_is_skipped_and_drops_long_names() {
    let mut deleted = regular(b"GONE    ", b"   ", 0x20, 3, 1);
    deleted[0] = 0xE5;
    let mut it = dir_iter(&[
        lfn(0x41, "gone for good"),
        deleted,
        regular(b"KEPT    ", b"   ", 0x20, 3, 1),
    ]);
    assert_eq!(it.next().unwrap().name(), "KEPT");
    assert!(it.next().is_none());
}

#[test]
fn end_entry_stops_the_listing() {
    let mut end = [0u8; 32];
    end[11] = 0x20;
    let mut it = dir_iter(&[
        regular(b"ONE     ", b"   ", 0x20, 3, 1),
        end,
        regular(b"BEHIND  ", b"   ", 0x20, 3, 1),
    ]);
    assert_eq!(it.next().unwrap().name(), "ONE");
    assert!(it.next().is_none());
    assert_eq!(it.pos, 64);
}

#[test]
fn full_directory_yields_its_last_entry() {
    let one = regular(b"ONE     ", b"   ", 0x20, 3, 1);
    let two = regular(b"TWO     ", b"   ", 0x20, 3, 1);
    let mut buf = Vec::new();
    buf.extend_from_slice(&one);
    buf.extend_from_slice(&two);
    // the entry that ends exactly where the buffer ends is decoded too
    let mut it = DirIter { buf: buf.clone(), long_file_name: LfnList::new(), pos: 0 };
    assert_eq!(it.next().unwrap().name(), "ONE");
    assert_eq!(it.next().unwrap().name(), "TWO");
    assert_eq!(it.pos, 64);
    assert!(it.next().is_none());
    assert_eq!(it.pos, 64);
    // what is left behind the last whole entry is not looked at
    buf.extend_from_slice(&one[..31]);
    let mut it = DirIter { buf, long_file_name: LfnList::new(), pos: 0 };
    assert_eq!(it.next().unwrap().name(), "ONE");
    assert_eq!(it.next().unwrap().name(), "TWO");
    assert!(it.next().is_none());
    assert_eq!(it.pos, 64);
}

#[test]
fn directory_of_many_full_slots_yields_every_entry() {
    let mut buf = Vec::new();
    for i in 0..16u8 {
        let mut name = *b"FILE    ";
        name[4] = b'A' + i;
        buf.extend_from_slice(&regular(&name, b"   ", 0x20, 3 + i as u32, i as u32));
    }
    let mut it = DirIter { buf, long_file_name: LfnList::new(), pos: 0 };
    for i in 0..16u8 {
        let e = it.next().unwrap();
        assert_eq!(e.name(), format!("FILE{}", (b'A' + i) as char));
        assert_eq!(e.as_file().unwrap().size, i as u64);
    }
    assert!(it.next().is_none());
}

#[test]
fn listing_of_too_little_is_empty() {
    let mut it = DirIter { buf: Vec::new(), long_file_name: LfnList::new(), pos: 0 };
    assert!(it.next().is_none());
    let mut it = DirIter { buf: vec![0x41; 31], long_file_name: LfnList::new(), pos: 0 };
    assert!(it.next().is_none());
    let mut it = DirIter { buf: vec![0x41; 40], long_file_name: LfnList::new(), pos: 9 };
    assert!(it.next().is_none());
    let mut it = DirIter { buf: vec![0x41; 40], long_file_name: LfnList::new(), pos: usize::MAX };
    assert!(it.next().is_none());
}

#[test]
fn parse_regular_dir_uses_up_the_long_name() {
    let mut it = dir_iter(&[]);
    it.long_file_name.push(lfn_entry(0x41, "long name.txt"));
    let raw = VFatRegularDirEntry::parse(&regular(b"LONGNA~1", b"TXT", 0x20, 0x0001_0002, 77));
    let e = it.parse_regular_dir(raw);
    assert_eq!(e.name(), "long name.txt");
    assert_eq!(e.as_file().unwrap().cluster.get(), 0x0001_0002);
    assert!(it.long_file_name.is_empty());
    let e = it.parse_regular_dir(raw);
    assert_eq!(e.name(), "LONGNA~1.TXT");
}

#[test]
fn root_directory_has_no_name() {
    let d = Dir::from_root_cluster(Cluster::from(2));
    assert_eq!(d.cluster, Cluster::from(2));
    assert_eq!(d.name, "");
    assert!(!d.metadata.read_only());
    assert!(!d.metadata.hidden());
    assert_eq!(d.metadata.created().year(), 1980);
}

#[test]
fn entry_hands_out_its_parts() {
    let m = Metadata::default();
    let e = Entry::File(File {
        cluster: Cluster::from(3),
        name: "a".to_string(),
        metadata: m,
        size: 5,
        offset: 0,
    });
    assert_eq!(e.name(), "a");
    assert_eq!(*e.metadata(), m);
    assert_eq!(e.as_file().unwrap().size, 5);
    let e = Entry::Dir(Dir { cluster: Cluster::from(4), name: "d".to_string(), metadata: m });
    assert_eq!(e.name(), "d");
    assert_eq!(e.as_dir().unwrap().cluster.get(), 4);
}
