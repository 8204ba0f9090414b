use vstd::prelude::*;
use crate::cache::{CachedDevice, Partition};
use crate::cluster::Cluster;
use crate::dir::Dir;
use crate::ebpb::BiosParameterBlock;
use crate::entry::{Entry, EntryView};
use crate::error::{kind_of, Error, ErrorKind};
use crate::fat::FatEntry;
use crate::file::File;
use crate::mbr::{MasterBootRecord, PartitionEntry};
use crate::model::{
    chain_bytes, chain_step, cluster_data, fat_entry_at, lemma_chain_bytes_stable,
    lemma_chain_step_stable, lemma_cluster_data_len, lemma_cluster_data_stable,
    lemma_sectors_bytes_missing, lemma_sectors_bytes_stable, prepend, read_at, sectors_bytes,
    sectors_sized, Geometry,
};
use crate::path::{open_spec, resolve, Component};
use crate::traits::BlockDevice;
use crate::util::{copy_into, read_le_u32};

verus! {

broadcast use vstd::map_lib::lemma_submap_of_trans;

/// A mounted FAT32 volume: the cached device and the volume's geometry.
pub struct VFat<D: BlockDevice> {
    device: CachedDevice<D>,
    geometry: Geometry,
}

impl<D: BlockDevice> VFat<D> {
    /// The geometry of the volume.
    pub closed spec fn spec_geometry(&self) -> Geometry {
        self.geometry
    }

    /// The sectors that the cache holds, by logical sector number.
    pub closed spec fn disk(&self) -> Map<u64, Seq<u8>> {
        self.device.sectors()
    }

    /// The invariant of a mounted volume: a geometry in good order, and a
    /// cache in good order whose sectors are the volume's logical sectors.
    pub closed spec fn wf(&self) -> bool {
        &&& self.geometry.wf()
        &&& self.device.wf()
        &&& self.device.spec_partition().sector_size == self.geometry.bytes_per_sector
        &&& self.device.spec_partition().start <= u32::MAX
    }

    /// Every cached sector of a mounted volume has the size of a logical
    /// sector.
    pub proof fn lemma_disk_sized(&self)
        requires
            self.wf(),
        ensures
            self.spec_geometry().wf(),
            sectors_sized(self.disk(), self.spec_geometry().bytes_per_sector as int),
    {
        self.device.lemma_sizes();
    }

    /// The sectors that the driver asks for are within reach of the device.
    proof fn lemma_addressable(&self, sector: u64)
        requires
            self.wf(),
            sector < 0x400_0000_0000,
        ensures
            self.device.addressable(sector),
    {
        self.device.lemma_sizes();
        let start = self.device.spec_partition().start;
        let logical = self.device.spec_partition().sector_size;
        let physical = self.device.device_sector_size();
        if !(physical == logical || sector < start) {
            let factor = logical as int / physical as int;
            assert(0 <= factor <= 0xFFFF) by (nonlinear_arith)
                requires
                    factor == logical as int / physical as int,
                    0 < physical,
                    0 <= logical <= 0xFFFF,
            ;
            assert((sector - start) * factor <= 0x400_0000_0000 * 0xFFFF) by (nonlinear_arith)
                requires
                    0 <= sector - start <= 0x400_0000_0000,
                    0 <= factor <= 0xFFFF,
            ;
        }
    }

    /// The geometry of the volume.
    #[verifier::when_used_as_spec(spec_geometry)]
    pub fn geometry(&self) -> (g: Geometry)
        ensures
            g == self.spec_geometry(),
    {
        self.geometry
    }

    /// The first sector of the data cluster `cluster`.
    pub fn cluster_to_sector(&self, cluster: Cluster) -> (sector: u64)
        requires
            self.wf(),
            cluster.0 >= 2,
        ensures
            sector == self.spec_geometry().cluster_to_sector(cluster),
            sector == self.spec_geometry().data_start_sector + (cluster.0 - 2)
                * self.spec_geometry().sectors_per_cluster,
            sector + self.spec_geometry().sectors_per_cluster < 0x400_0000_0000,
    {
        assert((cluster.0 - 2) * self.geometry.sectors_per_cluster <= 0xFFFF_FFFF * 255)
            by (nonlinear_arith)
            requires
                2 <= cluster.0 <= 0xFFFF_FFFF,
                self.geometry.sectors_per_cluster <= 255,
        ;
        self.geometry.data_start_sector + (cluster.get() as u64 - 2)
            * self.geometry.sectors_per_cluster as u64
    }

    /// The size of a cluster in bytes.
    pub fn bytes_per_cluster(&self) -> (n: usize)
        requires
            self.wf(),
        ensures
            n == self.spec_geometry().bytes_per_cluster(),
            0 < n <= 0xFFFF * 255,
    {
        assert(0 < self.geometry.bytes_per_sector * self.geometry.sectors_per_cluster <= 0xFFFF
            * 255) by (nonlinear_arith)
            requires
                0 < self.geometry.bytes_per_sector <= 0xFFFF,
                0 < self.geometry.sectors_per_cluster <= 255,
        ;
        (self.geometry.bytes_per_sector as usize) * (self.geometry.sectors_per_cluster as usize)
    }

    /// Reads the entry of `cluster` from the file allocation table.
    ///
    /// A cluster beyond the table is `NotFound`, and nothing is read for
    /// it. Otherwise the entry is the little-endian cell at byte
    /// `4 * cluster` of the table, taken from the cache. The device is asked
    /// only if the cache does not hold the sector, and only then can the
    /// call fail with `Io`.
    pub fn fat_entry(&mut self, cluster: Cluster) -> (r: Result<FatEntry, Error>)
        requires
            old(self).wf(),
        ensures
            final(self).wf(),
            final(self).spec_geometry() == old(self).spec_geometry(),
            old(self).disk().submap_of(final(self).disk()),
            kind_of(r) == fat_entry_at(old(self).spec_geometry(), final(self).disk(), cluster),
            fat_entry_at(old(self).spec_geometry(), old(self).disk(), cluster) != Err::<
                FatEntry,
                ErrorKind,
            >(ErrorKind::Io) ==> final(self).disk() == old(self).disk(),
    {
        let fat_offset: u64 = 4 * (cluster.get() as u64);
        let bytes_per_sector: u64 = self.geometry.bytes_per_sector as u64;
        let sector_offset: u64 = fat_offset / bytes_per_sector;
        let within: u64 = fat_offset % bytes_per_sector;
        if sector_offset >= self.geometry.sectors_per_fat as u64 {
            return Err(Error::NotFound);
        }
        let sector: u64 = self.geometry.fat_start_sector + sector_offset;
        proof {
            self.lemma_addressable(sector);
            self.device.lemma_sizes();
            let quarter = bytes_per_sector as int / 4;
            assert(bytes_per_sector == 4 * quarter);
            vstd::arithmetic::div_mod::lemma_truncate_middle(cluster.0 as int, 4, quarter);
            assert(within == 4 * ((cluster.0 as int) % quarter));
            assert(within + 4 <= bytes_per_sector) by {
                assert((cluster.0 as int) % quarter <= quarter - 1);
            }
        }
        match self.device.get(sector) {
            Err(e) => Err(Error::Io(e)),
            Ok(data) => Ok(FatEntry(read_le_u32(data, within as usize))),
        }
    }

    /// Reads the data of `cluster`, all its sectors in order, and appends
    /// it to `buf`. Returns the number of bytes appended: those of one
    /// cluster.
    ///
    /// Clusters 0 and 1 hold no data: asking for theirs is `InvalidData`.
    /// On failure `buf` keeps what it held, followed by the sectors read
    /// before the failure.
    fn _read_cluster(&mut self, cluster: Cluster, buf: &mut Vec<u8>) -> (r: Result<usize, Error>)
        requires
            old(self).wf(),
        ensures
            final(self).wf(),
            final(self).spec_geometry() == old(self).spec_geometry(),
            old(self).disk().submap_of(final(self).disk()),
            old(buf)@.len() <= final(buf)@.len(),
            final(buf)@.subrange(0, old(buf)@.len() as int) == old(buf)@,
            match r {
                Ok(n) => cluster_data(old(self).spec_geometry(), final(self).disk(), cluster) == Ok::<
                    Seq<u8>,
                    ErrorKind,
                >(final(buf)@.subrange(old(buf)@.len() as int, final(buf)@.len() as int)) && n
                    == old(self).spec_geometry().bytes_per_cluster() && final(buf)@.len() == old(
                    buf)@.len() + n,
                Err(e) => cluster_data(old(self).spec_geometry(), final(self).disk(), cluster)
                    == Err::<Seq<u8>, ErrorKind>(e.spec_kind()),
            },
            cluster_data(old(self).spec_geometry(), old(self).disk(), cluster) != Err::<
                Seq<u8>,
                ErrorKind,
            >(ErrorKind::Io) ==> final(self).disk() == old(self).disk(),
    {
        if cluster.get() < 2 {
            assert(buf@.subrange(0, buf@.len() as int) =~= buf@);
            return Err(Error::InvalidData);
        }
        let start_sector: u64 = self.cluster_to_sector(cluster);
        let count: u8 = self.geometry.sectors_per_cluster;
        let ghost before = buf@;
        let ghost disk0 = self.disk();
        let ghost geo = self.geometry;
        let mut i: u8 = 0;
        assert(buf@.subrange(before.len() as int, buf@.len() as int) =~= Seq::<u8>::empty());
        assert(buf@.subrange(0, before.len() as int) =~= before);
        while i < count
            invariant
                i <= count,
                self.wf(),
                self.geometry == geo,
                geo == old(self).spec_geometry(),
                disk0 == old(self).disk(),
                before == old(buf)@,
                cluster.0 >= 2,
                count == geo.sectors_per_cluster,
                start_sector == geo.cluster_to_sector(cluster),
                start_sector + count < 0x400_0000_0000,
                disk0.submap_of(self.disk()),
                before.len() <= buf@.len(),
                buf@.subrange(0, before.len() as int) == before,
                sectors_bytes(self.disk(), start_sector as int, i as nat) == Ok::<Seq<u8>, ErrorKind>(
                    buf@.subrange(before.len() as int, buf@.len() as int),
                ),
                sectors_bytes(disk0, start_sector as int, count as nat) is Ok ==> self.disk() == disk0,
            decreases count - i,
        {
            let ghost disk1 = self.disk();
            let ghost held = buf@;
            let sector: u64 = start_sector + i as u64;
            proof {
                self.lemma_addressable(sector);
                lemma_sectors_bytes_missing(disk0, start_sector as int, count as nat, i as int);
            }
            match self.device.get(sector) {
                Err(e) => {
                    proof {
                        lemma_sectors_bytes_missing(
                            self.disk(),
                            start_sector as int,
                            count as nat,
                            i as int,
                        );
                        lemma_sectors_bytes_stable(disk0, disk1, start_sector as int, count as nat);
                    }
                    return Err(Error::Io(e));
                },
                Ok(data) => {
                    buf.extend_from_slice(data);
                    proof {
                        assert(buf@ =~= held + data@);
                    }
                },
            }
            proof {
                let disk2 = self.disk();
                assert(disk1.submap_of(disk2));
                assert(disk0.submap_of(disk2));
                lemma_sectors_bytes_stable(disk1, disk2, start_sector as int, i as nat);
                assert(buf@.subrange(before.len() as int, buf@.len() as int) =~= held.subrange(
                    before.len() as int,
                    held.len() as int,
                ) + disk2[sector]);
                assert(buf@.subrange(0, before.len() as int) =~= before);
            }
            i += 1;
        }
        proof {
            self.lemma_disk_sized();
            lemma_cluster_data_len(geo, self.disk(), cluster);
            lemma_sectors_bytes_stable(disk0, self.disk(), start_sector as int, count as nat);
        }
        Ok(self.bytes_per_cluster())
    }
}

/// Chooses the partition to mount: the first of the record's partitions
/// whose type is `0x0B` or `0x0C`. A record without one is `NotFound`.
pub fn select_partition(mbr: &MasterBootRecord) -> (r: Result<PartitionEntry, Error>)
    ensures
        match r {
            Ok(p) => exists|i: int|
                0 <= i < 4 && mbr.is_fat32(i) && p == mbr.partitions@[i] && forall|j: int|
                    0 <= j < i ==> !mbr.is_fat32(j),
            Err(e) => e is NotFound && forall|j: int| 0 <= j < 4 ==> !mbr.is_fat32(j),
        },
{
    match mbr.find_fat32_partition() {
        None => Err(Error::NotFound),
        Some(partition) => Ok(partition),
    }
}

/// Whether a volume of geometry `geo` can be mounted on a device whose
/// sectors have `physical` bytes: the geometry is in good order, and a
/// logical sector is not smaller than a sector of the device.
pub open spec fn mountable(physical: u64, geo: Geometry) -> bool {
    geo.wf() && 0 < physical <= geo.bytes_per_sector
}

impl<D: BlockDevice> VFat<D> {
    /// Mounts the volume that starts at sector `start` of `device` and has
    /// the parameter block `bpb`.
    ///
    /// A volume that cannot be mounted is `InvalidData`. The mounted
    /// volume has the geometry that `start` and `bpb` give, and a cache that
    /// holds nothing yet.
    pub fn assemble(device: D, start: u32, bpb: &BiosParameterBlock) -> (r: Result<VFat<D>, Error>)
        ensures
            match r {
                Ok(fs) => {
                    &&& mountable(device.spec_sector_size(), Geometry::of(start, *bpb))
                    &&& fs.wf()
                    &&& fs.spec_geometry() == Geometry::of(start, *bpb)
                    &&& fs.disk() == Map::<u64, Seq<u8>>::empty()
                },
                Err(e) => e is InvalidData && !mountable(
                    device.spec_sector_size(),
                    Geometry::of(start, *bpb),
                ),
            },
    {
        let geometry = Geometry::compute(start, bpb);
        let physical: u64 = device.sector_size();
        if !geometry.is_valid() || physical == 0 || physical > geometry.bytes_per_sector as u64 {
            return Err(Error::InvalidData);
        }
        let partition = Partition {
            start: start as u64,
            sector_size: geometry.bytes_per_sector as u64,
        };
        Ok(VFat { device: CachedDevice::new(device, partition), geometry })
    }

    /// Mounts the first FAT32 partition of `device`.
    ///
    /// The master boot record is read from sector 0 and must be valid. The
    /// partition is chosen as [`select_partition`] says. The parameter block
    /// is read from the first sector of that partition and must carry the
    /// boot signature. What is decoded from the two sectors is mounted as
    /// [`VFat::assemble`] says.
    pub fn from(device: D) -> (r: Result<VFat<D>, Error>)
        ensures
            match r {
                Ok(fs) => {
                    &&& fs.wf()
                    &&& fs.disk() == Map::<u64, Seq<u8>>::empty()
                    &&& mountable(device.spec_sector_size(), fs.spec_geometry())
                    &&& exists|start: u32, bpb: BiosParameterBlock|
                        bpb.bootable_signature == 0xAA55 && fs.spec_geometry()
                            == #[trigger] Geometry::of(start, bpb)
                },
                Err(e) => match e.spec_kind() {
                    ErrorKind::Io => true,
                    ErrorKind::BadSignature => true,
                    ErrorKind::UnknownBootIndicator(i) => i < 4,
                    ErrorKind::NotFound => true,
                    ErrorKind::InvalidData => true,
                    _ => false,
                },
            },
    {
        let mut device = device;
        let mbr = match MasterBootRecord::from(&mut device) {
            Err(e) => {
                return Err(Error::Mbr(e));
            },
            Ok(mbr) => mbr,
        };
        let partition = match select_partition(&mbr) {
            Err(e) => {
                return Err(e);
            },
            Ok(partition) => partition,
        };
        let bpb = match BiosParameterBlock::from(&mut device, partition.relative_sector as u64) {
            Err(e) => {
                return Err(e);
            },
            Ok(bpb) => bpb,
        };
        Self::assemble(device, partition.relative_sector, &bpb)
    }

    /// Opens the entry that `path` leads to from the root directory.
    ///
    /// The path must start at the root. Each name on it is looked up in the
    /// directory reached so far, without regard to the case of ASCII
    /// letters. The result is what [`open_spec`] says of the cache as the
    /// call leaves it. The cache only grows, and it stays as it was where
    /// it held all that the call needed.
    pub fn open(&mut self, path: &[Component]) -> (r: Result<Entry, Error>)
        requires
            old(self).wf(),
        ensures
            final(self).wf(),
            final(self).spec_geometry() == old(self).spec_geometry(),
            old(self).disk().submap_of(final(self).disk()),
            match r {
                Ok(e) => open_spec(old(self).spec_geometry(), final(self).disk(), path@) == Ok::<
                    EntryView,
                    ErrorKind,
                >(e@) && (e matches Entry::File(f) ==> f.wf()),
                Err(e) => open_spec(old(self).spec_geometry(), final(self).disk(), path@) == Err::<
                    EntryView,
                    ErrorKind,
                >(e.spec_kind()),
            },
            open_spec(old(self).spec_geometry(), old(self).disk(), path@) != Err::<
                EntryView,
                ErrorKind,
            >(ErrorKind::Io) ==> final(self).disk() == old(self).disk(),
    {
        let ghost geo = self.spec_geometry();
        let ghost disk0 = self.disk();
        let mut cur_dir = Entry::Dir(Dir::from_root_cluster(self.geometry.root_dir_cluster));
        let mut first = true;
        let mut i: usize = 0;
        assert(path@.subrange(0, path@.len() as int) =~= path@);
        while i < path.len()
            invariant
                i <= path@.len(),
                self.wf(),
                self.spec_geometry() == geo,
                geo == old(self).spec_geometry(),
                disk0 == old(self).disk(),
                disk0.submap_of(self.disk()),
                cur_dir matches Entry::File(f) ==> f.wf(),
                forall|d: Map<u64, Seq<u8>>| #[trigger]
                    self.disk().submap_of(d) ==> open_spec(geo, d, path@) == resolve(
                        geo,
                        d,
                        cur_dir@,
                        first,
                        path@.subrange(i as int, path@.len() as int),
                    ),
                open_spec(geo, disk0, path@) != Err::<EntryView, ErrorKind>(ErrorKind::Io)
                    ==> self.disk() == disk0,
            decreases path@.len() - i,
        {
            let ghost disk_head = self.disk();
            let ghost rest = path@.subrange(i as int, path@.len() as int);
            let ghost cur = cur_dir@;
            proof {
                assert(rest[0] == path@[i as int]);
                assert(rest.drop_first() =~= path@.subrange(i + 1, path@.len() as int));
                assert(disk_head.submap_of(disk_head));
                assert(disk0.submap_of(disk0));
            }
            match &path[i] {
                Component::RootDir => {
                    first = false;
                },
                Component::Normal(name) => {
                    if first {
                        return Err(Error::InvalidInput);
                    }
                    let found = match &cur_dir {
                        Entry::Dir(dir) => dir.find(self, name.as_str()),
                        Entry::File(_) => Err(Error::NotFound),
                    };
                    let ghost disk1 = self.disk();
                    match found {
                        Err(e) => {
                            proof {
                                assert(disk1.submap_of(disk1));
                            }
                            return Err(e);
                        },
                        Ok(entry) => {
                            proof {
                                assert forall|d: Map<u64, Seq<u8>>| #[trigger]
                                    disk1.submap_of(d) implies open_spec(geo, d, path@) == resolve(
                                    geo,
                                    d,
                                    entry@,
                                    false,
                                    rest.drop_first(),
                                ) by {
                                    assert(disk_head.submap_of(d));
                                    if let EntryView::Dir(dv) = cur {
                                        lemma_chain_bytes_stable(
                                            geo,
                                            disk1,
                                            d,
                                            dv.cluster,
                                            usize::MAX as nat,
                                        );
                                    }
                                }
                            }
                            cur_dir = entry;
                        },
                    }
                },
                _ => {
                    return Err(Error::InvalidInput);
                },
            }
            i += 1;
        }
        proof {
            assert(self.disk().submap_of(self.disk()));
        }
        Ok(cur_dir)
    }

    /// Creating a file is not supported: the volume is read-only.
    pub fn create_file(&mut self, path: &[Component]) -> (r: Result<File, Error>)
        ensures
            r matches Err(Error::Unsupported),
            *final(self) == *old(self),
    {
        Err(Error::Unsupported)
    }

    /// Creating a directory is not supported: the volume is read-only.
    pub fn create_dir(&mut self, path: &[Component], parents: bool) -> (r: Result<Dir, Error>)
        ensures
            r matches Err(Error::Unsupported),
            *final(self) == *old(self),
    {
        Err(Error::Unsupported)
    }

    /// Renaming is not supported: the volume is read-only.
    pub fn rename(&mut self, from: &[Component], to: &[Component]) -> (r: Result<(), Error>)
        ensures
            r matches Err(Error::Unsupported),
            *final(self) == *old(self),
    {
        Err(Error::Unsupported)
    }

    /// Removing is not supported: the volume is read-only.
    pub fn remove(&mut self, path: &[Component], children: bool) -> (r: Result<(), Error>)
        ensures
            r matches Err(Error::Unsupported),
            *final(self) == *old(self),
    {
        Err(Error::Unsupported)
    }
}

/// Reading along cluster chains.
pub trait VFatExt {
    /// Whether the volume is in good order.
    spec fn mounted(&self) -> bool;

    /// The geometry of the volume.
    spec fn layout(&self) -> Geometry;

    /// The sectors that the cache holds, by logical sector number.
    spec fn cached(&self) -> Map<u64, Seq<u8>>;

    /// Reads the whole chain that starts at `start` into `buf`, which is
    /// cleared first. Returns the number of bytes read.
    ///
    /// The result is what [`chain_bytes`] says of the cache as the call
    /// leaves it. The cache only grows, and it stays as it was where it held
    /// all that the call needed: then the device is not asked, and the call
    /// cannot fail with `Io`. A chain too long for a buffer is `InvalidData`.
    fn read_chain(&mut self, start: Cluster, buf: &mut Vec<u8>) -> (r: Result<usize, Error>)
        requires
            old(self).mounted(),
        ensures
            final(self).mounted(),
            final(self).layout() == old(self).layout(),
            old(self).cached().submap_of(final(self).cached()),
            match r {
                Ok(n) => chain_bytes(
                    old(self).layout(),
                    final(self).cached(),
                    start,
                    usize::MAX as nat,
                ) == Ok::<Seq<u8>, ErrorKind>(final(buf)@) && n == final(buf)@.len(),
                Err(e) => chain_bytes(
                    old(self).layout(),
                    final(self).cached(),
                    start,
                    usize::MAX as nat,
                ) == Err::<Seq<u8>, ErrorKind>(e.spec_kind()),
            },
            chain_bytes(old(self).layout(), old(self).cached(), start, usize::MAX as nat) != Err::<
                Seq<u8>,
                ErrorKind,
            >(ErrorKind::Io) ==> final(self).cached() == old(self).cached(),
    ;

    /// Reads from the chain that starts at `cluster` into `buf`, from byte
    /// `offset` of the chain on, until `buf` is full or the chain ends.
    /// Returns the number of bytes read; the rest of `buf` stays as it was.
    ///
    /// The result is what [`read_at`] says of the cache as the call leaves
    /// it. The cache only grows, and it stays as it was where it held all
    /// that the call needed: then the device is not asked, and the call
    /// cannot fail with `Io`.
    fn read_cluster(&mut self, cluster: Cluster, offset: usize, buf: &mut [u8]) -> (r: Result<
        usize,
        Error,
    >)
        requires
            old(self).mounted(),
        ensures
            final(self).mounted(),
            final(self).layout() == old(self).layout(),
            old(self).cached().submap_of(final(self).cached()),
            final(buf)@.len() == old(buf)@.len(),
            match r {
                Ok(n) => n <= old(buf)@.len() && read_at(
                    old(self).layout(),
                    final(self).cached(),
                    cluster,
                    (offset as int / old(self).layout().bytes_per_cluster()) as nat,
                    (offset as int % old(self).layout().bytes_per_cluster()) as nat,
                    old(buf)@.len(),
                ) == Ok::<Seq<u8>, ErrorKind>(final(buf)@.subrange(0, n as int)) && final(
                    buf)@.subrange(n as int, old(buf)@.len() as int) == old(buf)@.subrange(
                    n as int,
                    old(buf)@.len() as int,
                ),
                Err(e) => read_at(
                    old(self).layout(),
                    final(self).cached(),
                    cluster,
                    (offset as int / old(self).layout().bytes_per_cluster()) as nat,
                    (offset as int % old(self).layout().bytes_per_cluster()) as nat,
                    old(buf)@.len(),
                ) == Err::<Seq<u8>, ErrorKind>(e.spec_kind()),
            },
            read_at(
                old(self).layout(),
                old(self).cached(),
                cluster,
                (offset as int / old(self).layout().bytes_per_cluster()) as nat,
                (offset as int % old(self).layout().bytes_per_cluster()) as nat,
                old(buf)@.len(),
            ) != Err::<Seq<u8>, ErrorKind>(ErrorKind::Io) ==> final(self).cached() == old(self).cached(),
    ;
}

impl<D: BlockDevice> VFatExt for VFat<D> {
    open spec fn mounted(&self) -> bool {
        self.wf()
    }

    open spec fn layout(&self) -> Geometry {
        self.spec_geometry()
    }

    open spec fn cached(&self) -> Map<u64, Seq<u8>> {
        self.disk()
    }

    fn read_chain(&mut self, start: Cluster, buf: &mut Vec<u8>) -> (r: Result<usize, Error>) {
        buf.clear();
        let cluster_bytes: usize = self.bytes_per_cluster();
        let ghost geo = self.spec_geometry();
        let ghost disk0 = self.disk();
        let mut it = start.iter();
        assert forall|d: Map<u64, Seq<u8>>| #[trigger] self.disk().submap_of(d) implies chain_bytes(
            geo,
            d,
            start,
            usize::MAX as nat,
        ) == prepend(buf@, chain_bytes(geo, d, it.current, (usize::MAX - buf@.len()) as nat)) by {
            let whole = chain_bytes(geo, d, start, usize::MAX as nat);
            if let Ok(bytes) = whole {
                assert(buf@ + bytes =~= bytes);
            }
        }
        loop
            invariant
                self.wf(),
                self.spec_geometry() == geo,
                geo == old(self).spec_geometry(),
                disk0 == old(self).disk(),
                cluster_bytes == geo.bytes_per_cluster(),
                cluster_bytes > 0,
                disk0.submap_of(self.disk()),
                !it.eoc_occurred,
                forall|d: Map<u64, Seq<u8>>| #[trigger]
                    self.disk().submap_of(d) ==> chain_bytes(geo, d, start, usize::MAX as nat)
                        == prepend(
                        buf@,
                        chain_bytes(geo, d, it.current, (usize::MAX - buf@.len()) as nat),
                    ),
                chain_bytes(geo, disk0, start, usize::MAX as nat) != Err::<Seq<u8>, ErrorKind>(
                    ErrorKind::Io,
                ) ==> self.disk() == disk0,
            decreases usize::MAX - buf@.len(),
        {
            let ghost disk_head = self.disk();
            let ghost held = buf@;
            let ghost cur = it.current;
            let ghost avail = (usize::MAX - buf@.len()) as nat;
            proof {
                assert(disk0.submap_of(disk0));
                assert(disk_head.submap_of(disk_head));
                if chain_bytes(geo, disk0, start, usize::MAX as nat) != Err::<Seq<u8>, ErrorKind>(
                    ErrorKind::Io,
                ) {
                    assert(chain_step(geo, disk0, cur) != Err::<Option<Cluster>, ErrorKind>(
                        ErrorKind::Io,
                    ));
                }
            }
            match it.next(self) {
                None => {
                    return Ok(buf.len());
                },
                Some(Err(e)) => {
                    proof {
                        assert(self.disk().submap_of(self.disk()));
                        assert(disk_head.submap_of(self.disk()));
                    }
                    return Err(e);
                },
                Some(Ok(cluster)) => {
                    let ghost disk1 = self.disk();
                    if usize::MAX - buf.len() < cluster_bytes {
                        proof {
                            assert(disk_head.submap_of(disk1));
                        }
                        return Err(Error::InvalidData);
                    }
                    proof {
                        if chain_bytes(geo, disk0, start, usize::MAX as nat) != Err::<
                            Seq<u8>,
                            ErrorKind,
                        >(ErrorKind::Io) {
                            assert(cluster_data(geo, disk0, cur) != Err::<Seq<u8>, ErrorKind>(
                                ErrorKind::Io,
                            ));
                        }
                    }
                    match self._read_cluster(cluster, buf) {
                        Err(e) => {
                            proof {
                                let disk2 = self.disk();
                                assert(disk_head.submap_of(disk2));
                                lemma_chain_step_stable(geo, disk1, disk2, cur);
                            }
                            return Err(e);
                        },
                        Ok(_) => {},
                    }
                    proof {
                        let disk2 = self.disk();
                        let data = buf@.subrange(held.len() as int, buf@.len() as int);
                        assert(buf@ =~= held + data);
                        assert forall|d: Map<u64, Seq<u8>>| #[trigger]
                            disk2.submap_of(d) implies chain_bytes(geo, d, start, usize::MAX as nat)
                            == (if it.eoc_occurred {
                            Ok::<Seq<u8>, ErrorKind>(buf@)
                        } else {
                            prepend(
                                buf@,
                                chain_bytes(geo, d, it.current, (usize::MAX - buf@.len()) as nat),
                            )
                        }) by {
                            assert(disk_head.submap_of(d));
                            assert(disk1.submap_of(d));
                            lemma_chain_step_stable(geo, disk1, d, cur);
                            lemma_cluster_data_stable(geo, disk2, d, cur);
                            let rest = chain_bytes(
                                geo,
                                d,
                                it.current,
                                (usize::MAX - buf@.len()) as nat,
                            );
                            if !it.eoc_occurred {
                                if let Ok(more) = rest {
                                    assert(held + (data + more) =~= buf@ + more);
                                }
                            }
                        }
                    }
                    if it.eoc_occurred {
                        proof {
                            assert(self.disk().submap_of(self.disk()));
                        }
                        return Ok(buf.len());
                    }
                },
            }
        }
    }

    fn read_cluster(&mut self, cluster: Cluster, offset: usize, buf: &mut [u8]) -> (r: Result<
        usize,
        Error,
    >) {
        let cluster_bytes: usize = self.bytes_per_cluster();
        let skip_clusters: usize = offset / cluster_bytes;
        let first_offset: usize = offset % cluster_bytes;
        let len: usize = buf.len();
        let ghost geo = self.spec_geometry();
        let ghost disk0 = self.disk();
        if len == 0 {
            assert(buf@.subrange(0, 0) =~= Seq::<u8>::empty());
            return Ok(0);
        }
        let mut it = cluster.iter();
        let mut skipped: usize = 0;
        while skipped < skip_clusters
            invariant
                skipped <= skip_clusters,
                self.wf(),
                self.spec_geometry() == geo,
                geo == old(self).spec_geometry(),
                disk0 == old(self).disk(),
                disk0.submap_of(self.disk()),
                buf@ == old(buf)@,
                len == buf@.len(),
                len > 0,
                !it.eoc_occurred,
                cluster_bytes == geo.bytes_per_cluster(),
                skip_clusters == offset as int / geo.bytes_per_cluster(),
                first_offset == offset as int % geo.bytes_per_cluster(),
                forall|d: Map<u64, Seq<u8>>| #[trigger]
                    self.disk().submap_of(d) ==> read_at(
                        geo,
                        d,
                        cluster,
                        skip_clusters as nat,
                        first_offset as nat,
                        len as nat,
                    ) == read_at(
                        geo,
                        d,
                        it.current,
                        (skip_clusters - skipped) as nat,
                        first_offset as nat,
                        len as nat,
                    ),
                read_at(
                    geo,
                    disk0,
                    cluster,
                    skip_clusters as nat,
                    first_offset as nat,
                    len as nat,
                ) != Err::<Seq<u8>, ErrorKind>(ErrorKind::Io) ==> self.disk() == disk0,
            decreases skip_clusters - skipped,
        {
            let ghost disk_head = self.disk();
            let ghost cur = it.current;
            proof {
                assert(disk0.submap_of(disk0));
                assert(disk_head.submap_of(disk_head));
                if read_at(
                    geo,
                    disk0,
                    cluster,
                    skip_clusters as nat,
                    first_offset as nat,
                    len as nat,
                ) != Err::<Seq<u8>, ErrorKind>(ErrorKind::Io) {
                    assert(chain_step(geo, disk0, cur) != Err::<Option<Cluster>, ErrorKind>(
                        ErrorKind::Io,
                    ));
                }
            }
            match it.next(self) {
                None => {
                    return Ok(0);
                },
                Some(Err(e)) => {
                    proof {
                        assert(disk_head.submap_of(self.disk()));
                    }
                    return Err(e);
                },
                Some(Ok(_)) => {
                    proof {
                        let disk1 = self.disk();
                        assert(disk_head.submap_of(disk1));
                        assert forall|d: Map<u64, Seq<u8>>| #[trigger]
                            disk1.submap_of(d) implies read_at(
                                geo,
                                d,
                                cluster,
                                skip_clusters as nat,
                                first_offset as nat,
                                len as nat,
                            ) == (if it.eoc_occurred {
                            Ok::<Seq<u8>, ErrorKind>(Seq::<u8>::empty())
                        } else {
                            read_at(
                                geo,
                                d,
                                it.current,
                                (skip_clusters - skipped - 1) as nat,
                                first_offset as nat,
                                len as nat,
                            )
                        }) by {
                            assert(disk_head.submap_of(d));
                            lemma_chain_step_stable(geo, disk1, d, cur);
                        }
                    }
                    if it.eoc_occurred {
                        proof {
                            assert(self.disk().submap_of(self.disk()));
                            assert(buf@.subrange(0, 0) =~= Seq::<u8>::empty());
                        }
                        return Ok(0);
                    }
                },
            }
            skipped += 1;
        }
        let mut cur_offset: usize = first_offset;
        let mut cur_buf_pos: usize = 0;
        assert(buf@.subrange(0, 0) =~= Seq::<u8>::empty());
        assert forall|d: Map<u64, Seq<u8>>| #[trigger] self.disk().submap_of(d) implies read_at(
            geo,
            d,
            cluster,
            skip_clusters as nat,
            first_offset as nat,
            len as nat,
        )
            == prepend(
            buf@.subrange(0, 0),
            read_at(geo, d, it.current, 0, cur_offset as nat, len as nat),
        ) by {
            let rest = read_at(geo, d, it.current, 0, cur_offset as nat, len as nat);
            if let Ok(more) = rest {
                assert(Seq::<u8>::empty() + more =~= more);
            }
        }
        while cur_buf_pos < len
            invariant
                cur_buf_pos <= len,
                cur_offset < cluster_bytes,
                self.wf(),
                self.spec_geometry() == geo,
                geo == old(self).spec_geometry(),
                disk0 == old(self).disk(),
                disk0.submap_of(self.disk()),
                len == buf@.len(),
                len == old(buf)@.len(),
                buf@.subrange(cur_buf_pos as int, len as int) == old(buf)@.subrange(
                    cur_buf_pos as int,
                    len as int,
                ),
                !it.eoc_occurred,
                cluster_bytes == geo.bytes_per_cluster(),
                skip_clusters == offset as int / geo.bytes_per_cluster(),
                first_offset == offset as int % geo.bytes_per_cluster(),
                forall|d: Map<u64, Seq<u8>>| #[trigger]
                    self.disk().submap_of(d) ==> read_at(
                        geo,
                        d,
                        cluster,
                        skip_clusters as nat,
                        first_offset as nat,
                        len as nat,
                    ) == prepend(
                        buf@.subrange(0, cur_buf_pos as int),
                        read_at(geo, d, it.current, 0, cur_offset as nat, (len - cur_buf_pos) as nat),
                    ),
                read_at(
                    geo,
                    disk0,
                    cluster,
                    skip_clusters as nat,
                    first_offset as nat,
                    len as nat,
                ) != Err::<Seq<u8>, ErrorKind>(ErrorKind::Io) ==> self.disk() == disk0,
            decreases len - cur_buf_pos,
        {
            let ghost disk_head = self.disk();
            let ghost cur = it.current;
            let ghost held = buf@;
            proof {
                assert(disk0.submap_of(disk0));
                assert(disk_head.submap_of(disk_head));
                if read_at(
                    geo,
                    disk0,
                    cluster,
                    skip_clusters as nat,
                    first_offset as nat,
                    len as nat,
                ) != Err::<Seq<u8>, ErrorKind>(ErrorKind::Io) {
                    assert(chain_step(geo, disk0, cur) != Err::<Option<Cluster>, ErrorKind>(
                        ErrorKind::Io,
                    ));
                    if chain_step(geo, disk0, cur) is Ok {
                        assert(cluster_data(geo, disk0, cur) != Err::<Seq<u8>, ErrorKind>(
                            ErrorKind::Io,
                        ));
                    }
                }
            }
            let cur_cluster = match it.next(self) {
                None => {
                    return Ok(cur_buf_pos);
                },
                Some(Err(e)) => {
                    proof {
                        assert(disk_head.submap_of(self.disk()));
                    }
                    return Err(e);
                },
                Some(Ok(c)) => c,
            };
            let ghost disk1 = self.disk();
            let mut cluster_buf: Vec<u8> = Vec::new();
            match self._read_cluster(cur_cluster, &mut cluster_buf) {
                Err(e) => {
                    proof {
                        let disk2 = self.disk();
                        assert(disk_head.submap_of(disk2));
                        lemma_chain_step_stable(geo, disk1, disk2, cur);
                    }
                    return Err(e);
                },
                Ok(_) => {},
            }
            let ghost disk2 = self.disk();
            let room: usize = cluster_bytes - cur_offset;
            let cur_read_len: usize = if len - cur_buf_pos < room {
                len - cur_buf_pos
            } else {
                room
            };
            copy_into(buf, cur_buf_pos, cluster_buf.as_slice(), cur_offset, cur_read_len);
            proof {
                let data = cluster_buf@;
                assert(data =~= cluster_buf@.subrange(0, cluster_buf@.len() as int));
                let part = data.subrange(cur_offset as int, cur_offset + cur_read_len);
                let before = held.subrange(0, cur_buf_pos as int);
                assert(buf@.subrange(0, cur_buf_pos + cur_read_len) =~= before + part);
                assert(buf@.subrange(cur_buf_pos + cur_read_len, len as int) =~= old(buf)@.subrange(
                    cur_buf_pos + cur_read_len,
                    len as int,
                )) by {
                    assert forall|j: int| cur_buf_pos + cur_read_len <= j < len implies buf@[j]
                        == old(buf)@[j] by {
                        assert(held.subrange(cur_buf_pos as int, len as int)[j - cur_buf_pos]
                            == old(buf)@.subrange(cur_buf_pos as int, len as int)[j - cur_buf_pos]);
                    }
                }
                assert forall|d: Map<u64, Seq<u8>>| #[trigger] disk2.submap_of(d) implies read_at(
                    geo,
                    d,
                    cluster,
                    skip_clusters as nat,
                    first_offset as nat,
                    len as nat,
                )
                    == (if it.eoc_occurred || cur_buf_pos + cur_read_len == len {
                    Ok::<Seq<u8>, ErrorKind>(buf@.subrange(0, cur_buf_pos + cur_read_len))
                } else {
                    prepend(
                        buf@.subrange(0, cur_buf_pos + cur_read_len),
                        read_at(
                            geo,
                            d,
                            it.current,
                            0,
                            0,
                            (len - cur_buf_pos - cur_read_len) as nat,
                        ),
                    )
                }) by {
                    assert(disk_head.submap_of(d));
                    assert(disk1.submap_of(d));
                    lemma_chain_step_stable(geo, disk1, d, cur);
                    lemma_cluster_data_stable(geo, disk2, d, cur);
                    if !(it.eoc_occurred || cur_buf_pos + cur_read_len == len) {
                        let rest = read_at(
                            geo,
                            d,
                            it.current,
                            0,
                            0,
                            (len - cur_buf_pos - cur_read_len) as nat,
                        );
                        if let Ok(more) = rest {
                            assert(before + (part + more) =~= (before + part) + more);
                        }
                    }
                }
            }
            cur_buf_pos += cur_read_len;
            cur_offset = 0;
            if it.eoc_occurred {
                proof {
                    assert(self.disk().submap_of(self.disk()));
                }
                return Ok(cur_buf_pos);
            }
        }
        proof {
            assert(self.disk().submap_of(self.disk()));
        }
        Ok(cur_buf_pos)
    }
}

} // verus!
