use vstd::prelude::*;
use crate::cluster::{cluster_bits, Cluster};
use crate::entry::{Entry, EntryView};
use crate::error::{Error, ErrorKind};
use crate::file::{File, FileView};
use crate::metadata::{Attributes, Date, Metadata, Time, Timestamp};
use crate::model::chain_bytes;
use crate::name::{
    decode_file_name_utf16, decode_file_name_utf8_ascii, name_units, same_ignoring_case,
    short_name_part, trimmed, utf16_lossy,
};
use crate::traits::BlockDevice;
use crate::util::{le_u16, le_u32, read_le_u16, read_le_u32};
use crate::vfat::{VFat, VFatExt};

verus! {

/// A directory entry that names a file or a directory by its short name.
#[derive(Debug, Copy, Clone)]
pub struct VFatRegularDirEntry {
    pub name: [u8; 8],
    pub extension: [u8; 3],
    pub attribute: Attributes,
    pub reserved: u8,
    /// Tenths of a second to add to the time of creation.
    pub creation_time_tenth: u8,
    pub create_time: Time,
    pub create_date: Date,
    pub last_access_date: Date,
    /// The high 16 bits of the first cluster.
    pub first_cluster_high: u16,
    pub last_modification_time: Time,
    pub last_modification_date: Date,
    /// The low 16 bits of the first cluster.
    pub first_cluster_low: u16,
    pub size: u32,
}

/// A directory entry that carries 13 UTF-16 code units of a long file name.
#[derive(Debug, Copy, Clone)]
pub struct VFatLfnDirEntry {
    pub seq_number: u8,
    pub name: [u16; 5],
    /// Always `0x0F`.
    pub attribute: Attributes,
    pub dir_type: u8,
    pub checksum: u8,
    pub name2: [u16; 6],
    pub reserved: u16,
    pub name3: [u16; 2],
}

/// A directory entry of which only the first byte and the attributes are
/// known: enough to tell what kind of entry it is.
#[derive(Debug, Copy, Clone)]
pub struct VFatUnknownDirEntry {
    pub flag: u8,
    pub unknown_1: [u8; 10],
    pub attribute: Attributes,
    pub unknown_2: [u8; 20],
}

/// A directory entry, told apart by its kind.
#[derive(Debug, Copy, Clone)]
pub enum VFatDirEntrySafe {
    Regular(VFatRegularDirEntry),
    Lfn(VFatLfnDirEntry),
    Deleted,
    End,
}

/// The four kinds of directory entry.
#[derive(PartialEq, Eq, Structural, Debug, Copy, Clone)]
pub enum EntryKind {
    Regular,
    Lfn,
    Deleted,
    End,
}

/// The fields of a regular entry, as plain values.
pub struct RegularFields {
    pub name: Seq<u8>,
    pub extension: Seq<u8>,
    pub attribute: Attributes,
    pub reserved: u8,
    pub creation_time_tenth: u8,
    pub create_time: Time,
    pub create_date: Date,
    pub last_access_date: Date,
    pub first_cluster_high: u16,
    pub last_modification_time: Time,
    pub last_modification_date: Date,
    pub first_cluster_low: u16,
    pub size: u32,
}

/// The fields of a long-file-name entry, as plain values.
pub struct LfnFields {
    pub seq_number: u8,
    pub name: Seq<u16>,
    pub attribute: Attributes,
    pub dir_type: u8,
    pub checksum: u8,
    pub name2: Seq<u16>,
    pub reserved: u16,
    pub name3: Seq<u16>,
}

impl View for VFatRegularDirEntry {
    type V = RegularFields;

    open spec fn view(&self) -> RegularFields {
        RegularFields {
            name: self.name@,
            extension: self.extension@,
            attribute: self.attribute,
            reserved: self.reserved,
            creation_time_tenth: self.creation_time_tenth,
            create_time: self.create_time,
            create_date: self.create_date,
            last_access_date: self.last_access_date,
            first_cluster_high: self.first_cluster_high,
            last_modification_time: self.last_modification_time,
            last_modification_date: self.last_modification_date,
            first_cluster_low: self.first_cluster_low,
            size: self.size,
        }
    }
}

impl View for VFatLfnDirEntry {
    type V = LfnFields;

    open spec fn view(&self) -> LfnFields {
        LfnFields {
            seq_number: self.seq_number,
            name: self.name@,
            attribute: self.attribute,
            dir_type: self.dir_type,
            checksum: self.checksum,
            name2: self.name2@,
            reserved: self.reserved,
            name3: self.name3@,
        }
    }
}

/// The `n` 16-bit little-endian numbers from offset `at` of `b` on.
pub open spec fn units_at(b: Seq<u8>, at: int, n: nat) -> Seq<u16> {
    Seq::new(n, |i: int| le_u16(b, at + 2 * i))
}

/// The kind of the directory entry `b`: a long-file-name entry if its
/// attribute byte is exactly `0x0F`; else deleted if its first byte is
/// `0xE5`; else the end of the directory if its first byte is `0x00`; else
/// regular.
pub open spec fn entry_kind(b: Seq<u8>) -> EntryKind {
    if b[11] == 0x0F {
        EntryKind::Lfn
    } else if b[0] == 0xE5 {
        EntryKind::Deleted
    } else if b[0] == 0x00 {
        EntryKind::End
    } else {
        EntryKind::Regular
    }
}

/// The regular entry that the 32 bytes `b` encode.
pub open spec fn regular_fields(b: Seq<u8>) -> RegularFields {
    RegularFields {
        name: b.subrange(0, 8),
        extension: b.subrange(8, 11),
        attribute: Attributes(b[11]),
        reserved: b[12],
        creation_time_tenth: b[13],
        create_time: Time(le_u16(b, 14)),
        create_date: Date(le_u16(b, 16)),
        last_access_date: Date(le_u16(b, 18)),
        first_cluster_high: le_u16(b, 20),
        last_modification_time: Time(le_u16(b, 22)),
        last_modification_date: Date(le_u16(b, 24)),
        first_cluster_low: le_u16(b, 26),
        size: le_u32(b, 28),
    }
}

/// The long-file-name entry that the 32 bytes `b` encode.
pub open spec fn lfn_fields(b: Seq<u8>) -> LfnFields {
    LfnFields {
        seq_number: b[0],
        name: units_at(b, 1, 5),
        attribute: Attributes(b[11]),
        dir_type: b[12],
        checksum: b[13],
        name2: units_at(b, 14, 6),
        reserved: le_u16(b, 26),
        name3: units_at(b, 28, 2),
    }
}

/// Copies `N` bytes from offset `at` of `b`.
fn take_bytes<const N: usize>(b: &[u8], at: usize) -> (a: [u8; N])
    requires
        at + N <= b@.len(),
    ensures
        a@ == b@.subrange(at as int, at + N),
{
    let mut a: [u8; N] = [0u8; N];
    let len: usize = b.len();
    let mut i: usize = 0;
    while i < N
        invariant
            i <= N,
            at + N <= len,
            len == b@.len(),
            a@.len() == N,
            forall|j: int| 0 <= j < i ==> a@[j] == b@[at + j],
        decreases N - i,
    {
        a[i] = b[at + i];
        i += 1;
    }
    assert(a@ =~= b@.subrange(at as int, at + N));
    a
}

/// Reads `N` 16-bit little-endian numbers from offset `at` of `b`.
fn take_units<const N: usize>(b: &[u8], at: usize) -> (a: [u16; N])
    requires
        at + 2 * N <= b@.len(),
    ensures
        a@ == units_at(b@, at as int, N as nat),
{
    let mut a: [u16; N] = [0u16; N];
    let len: usize = b.len();
    let mut i: usize = 0;
    while i < N
        invariant
            i <= N,
            at + 2 * N <= len,
            len == b@.len(),
            a@.len() == N,
            forall|j: int| 0 <= j < i ==> a@[j] == le_u16(b@, at + 2 * j),
        decreases N - i,
    {
        a[i] = read_le_u16(b, at + 2 * i);
        i += 1;
    }
    assert(a@ =~= units_at(b@, at as int, N as nat));
    a
}

impl VFatUnknownDirEntry {
    /// Decodes the first byte and the attributes of a directory entry.
    pub fn parse(b: &[u8]) -> (e: VFatUnknownDirEntry)
        requires
            b@.len() == 32,
        ensures
            e.flag == b@[0],
            e.unknown_1@ == b@.subrange(1, 11),
            e.attribute == Attributes(b@[11]),
            e.unknown_2@ == b@.subrange(12, 32),
    {
        VFatUnknownDirEntry {
            flag: b[0],
            unknown_1: take_bytes::<10>(b, 1),
            attribute: Attributes(b[11]),
            unknown_2: take_bytes::<20>(b, 12),
        }
    }
}

impl VFatRegularDirEntry {
    /// Decodes a regular directory entry.
    pub fn parse(b: &[u8]) -> (e: VFatRegularDirEntry)
        requires
            b@.len() == 32,
        ensures
            e@ == regular_fields(b@),
    {
        VFatRegularDirEntry {
            name: take_bytes::<8>(b, 0),
            extension: take_bytes::<3>(b, 8),
            attribute: Attributes(b[11]),
            reserved: b[12],
            creation_time_tenth: b[13],
            create_time: Time(read_le_u16(b, 14)),
            create_date: Date(read_le_u16(b, 16)),
            last_access_date: Date(read_le_u16(b, 18)),
            first_cluster_high: read_le_u16(b, 20),
            last_modification_time: Time(read_le_u16(b, 22)),
            last_modification_date: Date(read_le_u16(b, 24)),
            first_cluster_low: read_le_u16(b, 26),
            size: read_le_u32(b, 28),
        }
    }
}

impl VFatLfnDirEntry {
    /// Decodes a long-file-name directory entry.
    pub fn parse(b: &[u8]) -> (e: VFatLfnDirEntry)
        requires
            b@.len() == 32,
        ensures
            e@ == lfn_fields(b@),
    {
        VFatLfnDirEntry {
            seq_number: b[0],
            name: take_units::<5>(b, 1),
            attribute: Attributes(b[11]),
            dir_type: b[12],
            checksum: b[13],
            name2: take_units::<6>(b, 14),
            reserved: read_le_u16(b, 26),
            name3: take_units::<2>(b, 28),
        }
    }
}

/// Decodes the 32 bytes of a directory entry and tells its kind.
pub fn parse_dir_entry(ent: &[u8]) -> (r: VFatDirEntrySafe)
    requires
        ent@.len() == 32,
    ensures
        match r {
            VFatDirEntrySafe::Regular(e) => entry_kind(ent@) == EntryKind::Regular && e@
                == regular_fields(ent@),
            VFatDirEntrySafe::Lfn(e) => entry_kind(ent@) == EntryKind::Lfn && e@ == lfn_fields(ent@),
            VFatDirEntrySafe::Deleted => entry_kind(ent@) == EntryKind::Deleted,
            VFatDirEntrySafe::End => entry_kind(ent@) == EntryKind::End,
        },
{
    let unknown = VFatUnknownDirEntry::parse(ent);
    if unknown.attribute.equal_to(Attributes::LFN) {
        VFatDirEntrySafe::Lfn(VFatLfnDirEntry::parse(ent))
    } else if unknown.flag == 0xE5 {
        VFatDirEntrySafe::Deleted
    } else if unknown.flag == 0x00 {
        VFatDirEntrySafe::End
    } else {
        VFatDirEntrySafe::Regular(VFatRegularDirEntry::parse(ent))
    }
}

/// A directory of the volume.
#[derive(Debug)]
pub struct Dir {
    /// The first cluster of the directory's chain.
    pub cluster: Cluster,
    pub name: String,
    pub metadata: Metadata,
}

/// What a directory is, as plain values.
pub struct DirView {
    pub cluster: Cluster,
    pub name: Seq<char>,
    pub metadata: Metadata,
}

impl View for Dir {
    type V = DirView;

    open spec fn view(&self) -> DirView {
        DirView { cluster: self.cluster, name: self.name@, metadata: self.metadata }
    }
}

/// The metadata of a directory of which nothing is recorded.
pub open spec fn empty_metadata() -> Metadata {
    Metadata {
        is_read_only: false,
        is_hidden: false,
        created: Timestamp { date: Date(0), time: Time(0) },
        last_accessed: Timestamp { date: Date(0), time: Time(0) },
        last_modified: Timestamp { date: Date(0), time: Time(0) },
    }
}

/// The root directory of a volume whose root starts at `cluster`: it has
/// no name and no recorded metadata.
pub open spec fn root_dir(cluster: Cluster) -> DirView {
    DirView { cluster, name: Seq::empty(), metadata: empty_metadata() }
}

/// The sequence number and the 13 code units that a long-file-name entry
/// adds to a name.
pub open spec fn lfn_part(f: LfnFields) -> (u8, Seq<u16>) {
    (f.seq_number & 0x0F, f.name + f.name2 + f.name3)
}

/// The units of the parts with sequence number `k`, in the order in which
/// the parts stand in `parts`.
pub open spec fn units_with_seq(parts: Seq<(u8, Seq<u16>)>, k: int) -> Seq<u16>
    decreases parts.len(),
{
    if parts.len() == 0 {
        Seq::empty()
    } else if parts.last().0 == k {
        units_with_seq(parts.drop_last(), k) + parts.last().1
    } else {
        units_with_seq(parts.drop_last(), k)
    }
}

/// The units of the parts with a sequence number below `n`, by ascending
/// sequence number; parts of the same number keep their order.
pub open spec fn units_below(parts: Seq<(u8, Seq<u16>)>, n: nat) -> Seq<u16>
    decreases n,
{
    if n == 0 {
        Seq::empty()
    } else {
        units_below(parts, (n - 1) as nat) + units_with_seq(parts, n - 1)
    }
}

/// The units of all parts, in the order of a stable sort of the parts by
/// sequence number.
pub open spec fn ordered_units(parts: Seq<(u8, Seq<u16>)>) -> Seq<u16> {
    units_below(parts, 256)
}

/// The long name that `parts` spell: their units by ascending sequence
/// number, cut at the first `0x0000` or `0xFFFF`, decoded as UTF-16, and
/// trimmed.
pub open spec fn long_name(parts: Seq<(u8, Seq<u16>)>) -> Seq<char> {
    trimmed(utf16_lossy(name_units(ordered_units(parts))))
}

/// The short name of a regular entry: its name, and behind a dot its
/// extension if it has one.
pub open spec fn short_name(f: RegularFields) -> Seq<char> {
    if f.extension.len() > 0 && f.extension[0] != 0x00 && f.extension[0] != 0x20 {
        short_name_part(f.name) + seq!['.'] + short_name_part(f.extension)
    } else {
        short_name_part(f.name)
    }
}

/// The name of a regular entry that follows the long-file-name parts
/// `parts`: the long name if there are parts, else the short name.
pub open spec fn entry_name(f: RegularFields, parts: Seq<(u8, Seq<u16>)>) -> Seq<char> {
    if parts.len() > 0 {
        long_name(parts)
    } else {
        short_name(f)
    }
}

/// The first cluster of a regular entry: the high and the low half joined,
/// without the four reserved bits.
pub open spec fn entry_cluster(f: RegularFields) -> Cluster {
    Cluster(cluster_bits((f.first_cluster_high as int * 65536 + f.first_cluster_low as int) as u32))
}

/// The metadata of a regular entry. Of the last access only the date is
/// recorded.
pub open spec fn entry_metadata(f: RegularFields) -> Metadata {
    Metadata {
        is_read_only: f.attribute.0 & 0x01 != 0,
        is_hidden: f.attribute.0 & 0x02 != 0,
        created: Timestamp { date: f.create_date, time: f.create_time },
        last_accessed: Timestamp { date: f.last_access_date, time: Time(0) },
        last_modified: Timestamp { date: f.last_modification_date, time: f.last_modification_time },
    }
}

/// The file or directory that a regular entry describes when it follows
/// the long-file-name parts `parts`.
pub open spec fn entry_view(f: RegularFields, parts: Seq<(u8, Seq<u16>)>) -> EntryView {
    if f.attribute.0 & 0x10 != 0 {
        EntryView::Dir(
            DirView {
                cluster: entry_cluster(f),
                name: entry_name(f, parts),
                metadata: entry_metadata(f),
            },
        )
    } else {
        EntryView::File(
            FileView {
                cluster: entry_cluster(f),
                name: entry_name(f, parts),
                metadata: entry_metadata(f),
                size: f.size as u64,
                offset: 0,
            },
        )
    }
}

/// The units of all parts, in the order in which the parts stand.
pub open spec fn all_units(parts: Seq<(u8, Seq<u16>)>) -> Seq<u16>
    decreases parts.len(),
{
    if parts.len() == 0 {
        Seq::empty()
    } else {
        all_units(parts.drop_last()) + parts.last().1
    }
}

/// The units of the parts with a sequence number below `n`, in the order in
/// which the parts stand.
pub open spec fn units_before(parts: Seq<(u8, Seq<u16>)>, n: int) -> Seq<u16>
    decreases parts.len(),
{
    if parts.len() == 0 {
        Seq::empty()
    } else if parts.last().0 < n {
        units_before(parts.drop_last(), n) + parts.last().1
    } else {
        units_before(parts.drop_last(), n)
    }
}

/// Whether the sequence numbers of `parts` never fall from one part to the
/// next.
pub open spec fn ascending(parts: Seq<(u8, Seq<u16>)>) -> bool {
    forall|i: int, j: int| 0 <= i <= j < parts.len() ==> parts[i].0 <= parts[j].0
}

/// The units with one sequence number, of parts put one behind the other,
/// are those of the first parts followed by those of the second.
proof fn lemma_units_with_seq_concat(a: Seq<(u8, Seq<u16>)>, b: Seq<(u8, Seq<u16>)>, k: int)
    ensures
        units_with_seq(a + b, k) == units_with_seq(a, k) + units_with_seq(b, k),
    decreases b.len(),
{
    if b.len() == 0 {
        assert(a + b =~= a);
        assert(units_with_seq(a, k) + Seq::<u16>::empty() =~= units_with_seq(a, k));
    } else {
        assert((a + b).drop_last() =~= a + b.drop_last());
        assert((a + b).last() == b.last());
        lemma_units_with_seq_concat(a, b.drop_last(), k);
        assert((units_with_seq(a, k) + units_with_seq(b.drop_last(), k)) + b.last().1
            =~= units_with_seq(a, k) + (units_with_seq(b.drop_last(), k) + b.last().1));
    }
}

/// Parts none of which has the sequence number `k` have no units with it.
proof fn lemma_units_with_seq_none(parts: Seq<(u8, Seq<u16>)>, k: int)
    requires
        forall|i: int| 0 <= i < parts.len() ==> parts[i].0 != k,
    ensures
        units_with_seq(parts, k) == Seq::<u16>::empty(),
    decreases parts.len(),
{
    if parts.len() > 0 {
        lemma_units_with_seq_none(parts.drop_last(), k);
    }
}

/// Two neighbouring parts with different sequence numbers may change
/// places: the name they spell does not depend on which of them came
/// first. So long-file-name entries may stand in the directory in any
/// order of their sequence numbers.
pub proof fn lemma_order_of_arrival(
    before: Seq<(u8, Seq<u16>)>,
    x: (u8, Seq<u16>),
    y: (u8, Seq<u16>),
    after: Seq<(u8, Seq<u16>)>,
)
    requires
        x.0 != y.0,
    ensures
        ordered_units(before + seq![x, y] + after) == ordered_units(before + seq![y, x] + after),
        long_name(before + seq![x, y] + after) == long_name(before + seq![y, x] + after),
{
    lemma_units_below_swap(before, x, y, after, 256);
}

/// [`lemma_order_of_arrival`], for the sequence numbers below `n`.
proof fn lemma_units_below_swap(
    before: Seq<(u8, Seq<u16>)>,
    x: (u8, Seq<u16>),
    y: (u8, Seq<u16>),
    after: Seq<(u8, Seq<u16>)>,
    n: nat,
)
    requires
        x.0 != y.0,
    ensures
        units_below(before + seq![x, y] + after, n) == units_below(
            before + seq![y, x] + after,
            n,
        ),
    decreases n,
{
    if n > 0 {
        lemma_units_below_swap(before, x, y, after, (n - 1) as nat);
        let k = n - 1;
        let xy = seq![x, y];
        let yx = seq![y, x];
        lemma_units_with_seq_concat(before + xy, after, k);
        lemma_units_with_seq_concat(before, xy, k);
        lemma_units_with_seq_concat(before + yx, after, k);
        lemma_units_with_seq_concat(before, yx, k);
        assert(xy.drop_last() =~= seq![x]);
        assert(yx.drop_last() =~= seq![y]);
        assert(seq![x].drop_last() =~= Seq::<(u8, Seq<u16>)>::empty());
        assert(seq![y].drop_last() =~= Seq::<(u8, Seq<u16>)>::empty());
        let none = Seq::<u16>::empty();
        assert(units_with_seq(Seq::<(u8, Seq<u16>)>::empty(), k) =~= none);
        assert(units_with_seq(seq![x], k) =~= if x.0 == k {
            x.1
        } else {
            none
        });
        assert(units_with_seq(seq![y], k) =~= if y.0 == k {
            y.1
        } else {
            none
        });
        assert(xy.last() == y && yx.last() == x);
        assert(units_with_seq(xy, k) =~= units_with_seq(yx, k));
    }
}

/// For parts in ascending order, the units below `n` together with the
/// units of `n` are the units below `n + 1`.
proof fn lemma_units_before_step(parts: Seq<(u8, Seq<u16>)>, n: int)
    requires
        ascending(parts),
    ensures
        units_before(parts, n + 1) == units_before(parts, n) + units_with_seq(parts, n),
    decreases parts.len(),
{
    if parts.len() == 0 {
        assert(Seq::<u16>::empty() + Seq::<u16>::empty() =~= Seq::<u16>::empty());
    } else {
        let init = parts.drop_last();
        let last = parts.last();
        assert(ascending(init)) by {
            assert forall|i: int, j: int| 0 <= i <= j < init.len() implies init[i].0 <= init[j].0 by {
                assert(parts[i].0 <= parts[j].0);
            }
        }
        lemma_units_before_step(init, n);
        if last.0 < n {
            assert forall|i: int| 0 <= i < init.len() implies init[i].0 != n by {
                assert(parts[i].0 <= parts[parts.len() - 1].0);
            }
            lemma_units_with_seq_none(init, n);
            assert(units_before(init, n) + Seq::<u16>::empty() =~= units_before(init, n));
            assert((units_before(init, n) + last.1) + Seq::<u16>::empty() =~= units_before(init, n)
                + last.1);
        } else if last.0 == n {
            assert((units_before(init, n) + units_with_seq(init, n)) + last.1 =~= units_before(
                init,
                n,
            ) + (units_with_seq(init, n) + last.1));
        }
    }
}

/// The units of all parts are those with a sequence number below 256.
proof fn lemma_units_before_all(parts: Seq<(u8, Seq<u16>)>)
    ensures
        units_before(parts, 256) == all_units(parts),
    decreases parts.len(),
{
    if parts.len() > 0 {
        lemma_units_before_all(parts.drop_last());
    }
}

/// No part has a sequence number below 0.
proof fn lemma_units_before_zero(parts: Seq<(u8, Seq<u16>)>)
    ensures
        units_before(parts, 0) == Seq::<u16>::empty(),
    decreases parts.len(),
{
    if parts.len() > 0 {
        lemma_units_before_zero(parts.drop_last());
    }
}

/// For parts in ascending order, taking the units by sequence number up to
/// `n` is taking them in the order in which the parts stand.
proof fn lemma_units_below_ascending(parts: Seq<(u8, Seq<u16>)>, n: nat)
    requires
        ascending(parts),
    ensures
        units_below(parts, n) == units_before(parts, n as int),
    decreases n,
{
    if n == 0 {
        lemma_units_before_zero(parts);
    } else {
        lemma_units_below_ascending(parts, (n - 1) as nat);
        lemma_units_before_step(parts, n - 1);
    }
}

/// Parts that stand in ascending order of their sequence numbers spell
/// their units in the order in which they stand: the name assembled is the
/// decoding of the payloads sorted ascending by sequence number.
pub proof fn lemma_ascending_parts(parts: Seq<(u8, Seq<u16>)>)
    requires
        ascending(parts),
    ensures
        ordered_units(parts) == all_units(parts),
        long_name(parts) == trimmed(utf16_lossy(name_units(all_units(parts)))),
{
    lemma_units_below_ascending(parts, 256);
    lemma_units_before_all(parts);
}

/// The long-file-name entries seen since the last regular or deleted
/// entry: the parts of the name of the regular entry to come.
pub struct LfnList {
    buf: Vec<(u8, [u16; 13])>,
}

impl View for LfnList {
    type V = Seq<(u8, Seq<u16>)>;

    closed spec fn view(&self) -> Seq<(u8, Seq<u16>)> {
        Seq::new(self.buf@.len(), |i: int| (self.buf@[i].0, self.buf@[i].1@))
    }
}

impl LfnList {
    /// A list without parts.
    pub fn new() -> (l: LfnList)
        ensures
            l@ == Seq::<(u8, Seq<u16>)>::empty(),
    {
        let l = LfnList { buf: Vec::new() };
        assert(l@ =~= Seq::<(u8, Seq<u16>)>::empty());
        l
    }

    /// Adds the part that the entry `lfn` carries: the low four bits of its
    /// sequence number, and its 13 code units.
    pub fn push(&mut self, lfn: VFatLfnDirEntry)
        ensures
            final(self)@ == old(self)@.push(lfn_part(lfn@)),
    {
        let seq: u8 = lfn.seq_number & 0x0F;
        let mut name_buf: [u16; 13] = [0u16; 13];
        let mut i: usize = 0;
        while i < 13
            invariant
                i <= 13,
                forall|j: int| 0 <= j < i ==> name_buf@[j] == (lfn.name@ + lfn.name2@ + lfn.name3@)[j],
            decreases 13 - i,
        {
            name_buf[i] = if i < 5 {
                lfn.name[i]
            } else if i < 11 {
                lfn.name2[i - 5]
            } else {
                lfn.name3[i - 11]
            };
            i += 1;
        }
        assert(name_buf@ =~= lfn.name@ + lfn.name2@ + lfn.name3@);
        self.buf.push((seq, name_buf));
        assert(self@ =~= old(self)@.push(lfn_part(lfn@)));
    }

    /// Whether the list has no parts.
    pub fn is_empty(&self) -> (b: bool)
        ensures
            b == (self@.len() == 0),
    {
        self.buf.len() == 0
    }

    /// Drops all parts.
    pub fn clear(&mut self)
        ensures
            final(self)@ == Seq::<(u8, Seq<u16>)>::empty(),
    {
        self.buf.clear();
        assert(self@ =~= Seq::<(u8, Seq<u16>)>::empty());
    }

    /// Appends to `units` the units of the parts with sequence number `k`.
    fn collect_seq(&self, k: u8, units: &mut Vec<u16>)
        ensures
            final(units)@ == old(units)@ + units_with_seq(self@, k as int),
    {
        let mut j: usize = 0;
        assert(self@.subrange(0, 0) =~= Seq::<(u8, Seq<u16>)>::empty());
        assert(units@ + Seq::<u16>::empty() =~= units@);
        while j < self.buf.len()
            invariant
                j <= self.buf@.len(),
                self.buf@.len() == self@.len(),
                units@ == old(units)@ + units_with_seq(self@.subrange(0, j as int), k as int),
            decreases self.buf@.len() - j,
        {
            let ghost before = units@;
            let ghost prefix = self@.subrange(0, j as int);
            let ghost longer = self@.subrange(0, j + 1);
            assert(longer.drop_last() =~= prefix);
            assert(longer.last() == self@[j as int]);
            if self.buf[j].0 == k {
                let mut t: usize = 0;
                while t < 13
                    invariant
                        t <= 13,
                        j < self.buf@.len(),
                        self.buf@[j as int].1@.len() == 13,
                        units@ == before + self.buf@[j as int].1@.subrange(0, t as int),
                    decreases 13 - t,
                {
                    units.push(self.buf[j].1[t]);
                    t += 1;
                    assert(units@ =~= before + self.buf@[j as int].1@.subrange(0, t as int));
                }
                assert(self.buf@[j as int].1@.subrange(0, 13) =~= self.buf@[j as int].1@);
                assert(units@ =~= old(units)@ + (units_with_seq(prefix, k as int) + self@[j as int].1));
            }
            j += 1;
        }
        assert(self@.subrange(0, self@.len() as int) =~= self@);
    }

    /// Spells the long name out of the parts and drops them.
    ///
    /// The parts are taken by ascending sequence number, whatever the order
    /// in which they came; their units are cut at the first `0x0000` or
    /// `0xFFFF`, decoded as UTF-16 with U+FFFD for what does not decode, and
    /// trimmed.
    pub fn decode(&mut self) -> (s: String)
        ensures
            s@ == long_name(old(self)@),
            final(self)@ == Seq::<(u8, Seq<u16>)>::empty(),
    {
        let mut units: Vec<u16> = Vec::new();
        let mut k: u16 = 0;
        assert(units@ =~= units_below(self@, 0));
        while k < 256
            invariant
                k <= 256,
                *self == *old(self),
                units@ == units_below(self@, k as nat),
            decreases 256 - k,
        {
            self.collect_seq(k as u8, &mut units);
            k += 1;
        }
        let name = decode_file_name_utf16(units.as_slice());
        let ret = name.as_str().trim().to_owned();
        self.clear();
        ret
    }
}

/// What one step of decoding a directory gives: the entry found, if any,
/// the position behind what was looked at, and the long-file-name parts
/// still waiting for their regular entry.
pub struct Scan {
    pub entry: Option<EntryView>,
    pub pos: int,
    pub parts: Seq<(u8, Seq<u16>)>,
}

/// One step of decoding the directory `buf` from position `pos` on, with
/// the long-file-name parts `parts` seen so far.
///
/// Entries are taken 32 bytes at a time for as long as a whole entry is
/// left. A long-file-name entry adds its part, a deleted entry drops
/// the parts, and both are passed over. An end-of-directory entry ends the
/// step without an entry. A regular entry is the entry found: it takes the
/// name that the parts spell, or its short name if there are none.
pub open spec fn scan(buf: Seq<u8>, pos: int, parts: Seq<(u8, Seq<u16>)>) -> Scan
    decreases buf.len() - pos,
{
    if pos < 0 || pos + 32 > buf.len() {
        Scan { entry: None, pos, parts }
    } else {
        let raw = buf.subrange(pos, pos + 32);
        match entry_kind(raw) {
            EntryKind::Lfn => scan(buf, pos + 32, parts.push(lfn_part(lfn_fields(raw)))),
            EntryKind::Deleted => scan(buf, pos + 32, Seq::empty()),
            EntryKind::End => Scan { entry: None, pos: pos + 32, parts },
            EntryKind::Regular => Scan {
                entry: Some(entry_view(regular_fields(raw), parts)),
                pos: pos + 32,
                parts: Seq::empty(),
            },
        }
    }
}

/// The entries of the directory `buf` from position `pos` on, up to the
/// first step that finds none.
pub open spec fn listing(buf: Seq<u8>, pos: int, parts: Seq<(u8, Seq<u16>)>) -> Seq<EntryView>
    decreases buf.len() - pos,
{
    let step = scan(buf, pos, parts);
    if step.entry is Some && pos < step.pos <= buf.len() {
        seq![step.entry->0] + listing(buf, step.pos, step.parts)
    } else {
        Seq::empty()
    }
}

/// The index of the first of `entries` whose name is `name` but for the
/// case of ASCII letters; the number of entries if there is none.
pub open spec fn first_match(entries: Seq<EntryView>, name: Seq<char>) -> int
    decreases entries.len(),
{
    if entries.len() == 0 {
        0
    } else if same_ignoring_case(entries[0].name(), name) {
        0
    } else {
        1 + first_match(entries.drop_first(), name)
    }
}

/// What [`first_match`] finds is the first entry whose name matches: it
/// matches, and no entry before it does; and where it finds none, none
/// matches.
pub proof fn lemma_first_match(entries: Seq<EntryView>, name: Seq<char>)
    ensures
        0 <= first_match(entries, name) <= entries.len(),
        first_match(entries, name) < entries.len() ==> same_ignoring_case(
            entries[first_match(entries, name)].name(),
            name,
        ),
        forall|j: int|
            0 <= j < first_match(entries, name) ==> !same_ignoring_case(
                (#[trigger] entries[j]).name(),
                name,
            ),
    decreases entries.len(),
{
    if entries.len() > 0 && !same_ignoring_case(entries[0].name(), name) {
        let rest = entries.drop_first();
        lemma_first_match(rest, name);
        assert forall|j: int| 0 <= j < first_match(entries, name) implies !same_ignoring_case(
            (#[trigger] entries[j]).name(),
            name,
        ) by {
            if j > 0 {
                assert(entries[j] == rest[j - 1]);
            }
        }
    }
}

/// The entry named `name` in the directory whose bytes are `buf`: the
/// first of its entries whose name matches, or `NotFound`.
pub open spec fn find_in(buf: Seq<u8>, name: Seq<char>) -> Result<EntryView, ErrorKind> {
    let entries = listing(buf, 0, Seq::empty());
    let i = first_match(entries, name);
    if 0 <= i < entries.len() {
        Ok(entries[i])
    } else {
        Err(ErrorKind::NotFound)
    }
}

/// The entry named `name` in the directory whose chain is `chain`, if the
/// chain could be read.
pub open spec fn find_spec(chain: Result<Seq<u8>, ErrorKind>, name: Seq<char>) -> Result<
    EntryView,
    ErrorKind,
> {
    match chain {
        Err(e) => Err(e),
        Ok(buf) => find_in(buf, name),
    }
}

/// The view of an entry that may be there.
pub open spec fn view_of(e: Option<Entry>) -> Option<EntryView> {
    match e {
        Some(e) => Some(e@),
        None => None,
    }
}

/// A step of decoding moves on, and a step that finds an entry ends behind
/// that entry, within the directory.
pub proof fn lemma_scan_advances(buf: Seq<u8>, pos: int, parts: Seq<(u8, Seq<u16>)>)
    requires
        0 <= pos,
    ensures
        scan(buf, pos, parts).pos >= pos,
        scan(buf, pos, parts).entry is Some ==> pos < scan(buf, pos, parts).pos <= buf.len(),
    decreases buf.len() - pos,
{
    if !(pos + 32 > buf.len()) {
        let raw = buf.subrange(pos, pos + 32);
        match entry_kind(raw) {
            EntryKind::Lfn => lemma_scan_advances(buf, pos + 32, parts.push(lfn_part(lfn_fields(raw)))),
            EntryKind::Deleted => lemma_scan_advances(buf, pos + 32, Seq::empty()),
            _ => {},
        }
    }
}

/// The 32 bytes of the entry in slot `i` of the directory `buf`.
pub open spec fn slot(buf: Seq<u8>, i: int) -> Seq<u8> {
    buf.subrange(32 * i, 32 * i + 32)
}

/// A directory that is full of regular entries yields them all: where
/// every slot from slot `k` on holds a regular entry, the listing from slot
/// `k` on has one entry for each of these slots, in the order of the slots,
/// up to and with the entry in the last 32 bytes of the directory. The
/// first of them takes the name that the waiting parts spell; the others
/// take their short names.
pub proof fn lemma_full_directory(buf: Seq<u8>, n: int, k: int, parts: Seq<(u8, Seq<u16>)>)
    requires
        buf.len() == 32 * n,
        0 <= k <= n,
        forall|j: int| k <= j < n ==> entry_kind(#[trigger] slot(buf, j)) == EntryKind::Regular,
    ensures
        listing(buf, 32 * k, parts).len() == n - k,
        forall|i: int|
            0 <= i < n - k ==> #[trigger] listing(buf, 32 * k, parts)[i] == entry_view(
                regular_fields(slot(buf, k + i)),
                if i == 0 {
                    parts
                } else {
                    Seq::empty()
                },
            ),
    decreases n - k,
{
    if k < n {
        assert(entry_kind(slot(buf, k)) == EntryKind::Regular);
        let step = scan(buf, 32 * k, parts);
        assert(step.pos == 32 * (k + 1));
        lemma_full_directory(buf, n, k + 1, Seq::empty());
        let rest = listing(buf, 32 * (k + 1), Seq::empty());
        let all = listing(buf, 32 * k, parts);
        assert(all == seq![step.entry->0] + rest);
        assert forall|i: int| 0 <= i < n - k implies #[trigger] all[i] == entry_view(
            regular_fields(slot(buf, k + i)),
            if i == 0 {
                parts
            } else {
                Seq::empty()
            },
        ) by {
            if i > 0 {
                assert(all[i] == rest[i - 1]);
            }
        }
    }
}

/// A directory that is being decoded, entry by entry.
pub struct DirIter {
    /// The bytes of the directory.
    pub buf: Vec<u8>,
    /// The long-file-name parts seen since the last regular or deleted entry.
    pub long_file_name: LfnList,
    /// The position of the next entry to look at.
    pub pos: usize,
}

impl DirIter {
    /// Builds the file or directory that the regular entry `dir` describes,
    /// and drops the parts of its long name.
    ///
    /// The name is the long name if long-file-name entries came before the
    /// entry, else the short name. The first cluster is joined from its two
    /// halves, without the four reserved bits. An entry with the directory
    /// attribute is a directory; any other is a file of the size that the
    /// entry states, positioned at its start.
    pub fn parse_regular_dir(&mut self, dir: VFatRegularDirEntry) -> (e: Entry)
        ensures
            e@ == entry_view(dir@, old(self).long_file_name@),
            final(self).long_file_name@ == Seq::<(u8, Seq<u16>)>::empty(),
            final(self).buf == old(self).buf,
            final(self).pos == old(self).pos,
            e matches Entry::File(f) ==> f.wf(),
    {
        let mut name: String;
        if !self.long_file_name.is_empty() {
            name = self.long_file_name.decode();
        } else {
            name = decode_file_name_utf8_ascii(dir.name.as_slice());
            if dir.extension[0] != 0x00 && dir.extension[0] != 0x20 {
                name.push('.');
                let extension = decode_file_name_utf8_ascii(dir.extension.as_slice());
                name.append(extension.as_str());
            }
        }
        let high: u32 = dir.first_cluster_high as u32;
        let low: u32 = dir.first_cluster_low as u32;
        assert((high << 16) + low == high * 65536 + low) by (bit_vector)
            requires
                high <= 0xFFFF,
                low <= 0xFFFF,
        ;
        let cluster = Cluster::from((high << 16) + low);
        assert(name@ == entry_name(dir@, old(self).long_file_name@));
        assert(cluster == entry_cluster(dir@));
        let metadata = Metadata {
            is_read_only: dir.attribute.has_flag(Attributes::READ_ONLY),
            is_hidden: dir.attribute.has_flag(Attributes::HIDDEN),
            created: Timestamp { date: dir.create_date, time: dir.create_time },
            last_accessed: Timestamp { date: dir.last_access_date, time: Time::empty() },
            last_modified: Timestamp {
                date: dir.last_modification_date,
                time: dir.last_modification_time,
            },
        };
        if dir.attribute.has_flag(Attributes::DIRECTORY) {
            Entry::Dir(Dir { cluster, name, metadata })
        } else {
            Entry::File(File { cluster, name, metadata, size: dir.size as u64, offset: 0 })
        }
    }

    /// Decodes up to the next file or directory and returns it; `None`
    /// where the directory ends.
    ///
    /// What is returned, where the position then is and which parts of a
    /// long name are still waiting is what [`scan`] says.
    pub fn next(&mut self) -> (r: Option<Entry>)
        ensures
            final(self).buf == old(self).buf,
            ({
                let step = scan(old(self).buf@, old(self).pos as int, old(self).long_file_name@);
                &&& view_of(r) == step.entry
                &&& final(self).pos == step.pos
                &&& final(self).long_file_name@ == step.parts
            }),
            r matches Some(Entry::File(f)) ==> f.wf(),
    {
        loop
            invariant
                self.buf == old(self).buf,
                scan(old(self).buf@, old(self).pos as int, old(self).long_file_name@) == scan(
                    self.buf@,
                    self.pos as int,
                    self.long_file_name@,
                ),
            decreases self.buf@.len() - self.pos,
        {
            if self.buf.len() < 32 || self.pos > self.buf.len() - 32 {
                return None;
            }
            let ent = parse_dir_entry(vstd::slice::slice_subrange(
                self.buf.as_slice(),
                self.pos,
                self.pos + 32,
            ));
            self.pos += 32;
            match ent {
                VFatDirEntrySafe::Regular(regular) => {
                    return Some(self.parse_regular_dir(regular));
                },
                VFatDirEntrySafe::Lfn(lfn) => {
                    self.long_file_name.push(lfn);
                },
                VFatDirEntrySafe::End => {
                    return None;
                },
                VFatDirEntrySafe::Deleted => {
                    self.long_file_name.clear();
                },
            }
        }
    }
}

impl Dir {
    /// The root directory of a volume whose root starts at `cluster`.
    pub fn from_root_cluster(cluster: Cluster) -> (d: Dir)
        ensures
            d@ == root_dir(cluster),
    {
        Dir {
            cluster,
            name: String::new(),
            metadata: Metadata {
                is_read_only: false,
                is_hidden: false,
                created: Timestamp::empty(),
                last_accessed: Timestamp::empty(),
                last_modified: Timestamp::empty(),
            },
        }
    }

    /// Reads the directory from `drive` and returns it ready for decoding.
    ///
    /// The bytes are those of the directory's chain, as [`chain_bytes`]
    /// says of the cache as the call leaves it.
    pub fn entries<D: BlockDevice>(&self, drive: &mut VFat<D>) -> (r: Result<DirIter, Error>)
        requires
            old(drive).wf(),
        ensures
            final(drive).wf(),
            final(drive).spec_geometry() == old(drive).spec_geometry(),
            old(drive).disk().submap_of(final(drive).disk()),
            match r {
                Ok(it) => chain_bytes(
                    old(drive).spec_geometry(),
                    final(drive).disk(),
                    self.cluster,
                    usize::MAX as nat,
                ) == Ok::<Seq<u8>, ErrorKind>(it.buf@) && it.pos == 0 && it.long_file_name@
                    == Seq::<(u8, Seq<u16>)>::empty(),
                Err(e) => chain_bytes(
                    old(drive).spec_geometry(),
                    final(drive).disk(),
                    self.cluster,
                    usize::MAX as nat,
                ) == Err::<Seq<u8>, ErrorKind>(e.spec_kind()),
            },
            chain_bytes(
                old(drive).spec_geometry(),
                old(drive).disk(),
                self.cluster,
                usize::MAX as nat,
            ) != Err::<Seq<u8>, ErrorKind>(ErrorKind::Io) ==> final(drive).disk() == old(drive).disk(),
    {
        let mut buf: Vec<u8> = Vec::new();
        match drive.read_chain(self.cluster, &mut buf) {
            Err(e) => Err(e),
            Ok(_) => Ok(DirIter { buf, long_file_name: LfnList::new(), pos: 0 }),
        }
    }

    /// Finds the entry named `name` in this directory; the case of ASCII
    /// letters does not matter.
    ///
    /// The entry returned is the first of the directory's entries whose
    /// name matches. If none does, the result is `NotFound`. If the
    /// directory cannot be read, the result is the error of the read.
    pub fn find<D: BlockDevice>(&self, drive: &mut VFat<D>, name: &str) -> (r: Result<Entry, Error>)
        requires
            old(drive).wf(),
        ensures
            final(drive).wf(),
            final(drive).spec_geometry() == old(drive).spec_geometry(),
            old(drive).disk().submap_of(final(drive).disk()),
            match r {
                Ok(e) => find_spec(
                    chain_bytes(
                        old(drive).spec_geometry(),
                        final(drive).disk(),
                        self.cluster,
                        usize::MAX as nat,
                    ),
                    name@,
                ) == Ok::<EntryView, ErrorKind>(e@) && (e matches Entry::File(f) ==> f.wf()),
                Err(e) => find_spec(
                    chain_bytes(
                        old(drive).spec_geometry(),
                        final(drive).disk(),
                        self.cluster,
                        usize::MAX as nat,
                    ),
                    name@,
                ) == Err::<EntryView, ErrorKind>(e.spec_kind()),
            },
            chain_bytes(
                old(drive).spec_geometry(),
                old(drive).disk(),
                self.cluster,
                usize::MAX as nat,
            ) != Err::<Seq<u8>, ErrorKind>(ErrorKind::Io) ==> final(drive).disk() == old(drive).disk(),
    {
        let mut it = match self.entries(drive) {
            Err(e) => {
                return Err(e);
            },
            Ok(it) => it,
        };
        let ghost buf = it.buf@;
        let ghost all = listing(buf, 0, Seq::empty());
        let ghost mut passed: int = 0;
        loop
            invariant
                drive.wf(),
                drive.spec_geometry() == old(drive).spec_geometry(),
                old(drive).disk().submap_of(drive.disk()),
                chain_bytes(
                    old(drive).spec_geometry(),
                    drive.disk(),
                    self.cluster,
                    usize::MAX as nat,
                ) == Ok::<Seq<u8>, ErrorKind>(buf),
                chain_bytes(
                    old(drive).spec_geometry(),
                    old(drive).disk(),
                    self.cluster,
                    usize::MAX as nat,
                ) != Err::<Seq<u8>, ErrorKind>(ErrorKind::Io) ==> drive.disk() == old(drive).disk(),
                it.buf@ == buf,
                all == listing(buf, 0, Seq::empty()),
                0 <= passed <= all.len(),
                listing(buf, it.pos as int, it.long_file_name@) == all.subrange(
                    passed,
                    all.len() as int,
                ),
                first_match(all, name@) == passed + first_match(
                    all.subrange(passed, all.len() as int),
                    name@,
                ),
            decreases buf.len() - it.pos,
        {
            let ghost rest = all.subrange(passed, all.len() as int);
            proof {
                lemma_scan_advances(buf, it.pos as int, it.long_file_name@);
            }
            match it.next() {
                None => {
                    assert(rest.len() == 0);
                    return Err(Error::NotFound);
                },
                Some(entry) => {
                    proof {
                        assert(rest[0] == entry@);
                        assert(rest.drop_first() =~= all.subrange(passed + 1, all.len() as int));
                        assert(rest.drop_first() =~= listing(
                            buf,
                            it.pos as int,
                            it.long_file_name@,
                        ));
                    }
                    if entry.name().eq_ignore_ascii_case(name) {
                        return Ok(entry);
                    }
                    proof {
                        passed = passed + 1;
                    }
                },
            }
        }
    }
}

} // verus!
