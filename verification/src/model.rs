//! The mathematical model of a mounted volume: what the structures on the
//! volume mean, as functions of its geometry and of the sectors that the
//! cache holds.
//!
//! Every function of the model that reads sectors answers
//! `Err(ErrorKind::Io)` exactly where it needs a sector that the cache does
//! not hold. Any other answer stays the same when the cache grows.

use vstd::prelude::*;
use crate::cluster::Cluster;
use crate::ebpb::BiosParameterBlock;
use crate::error::ErrorKind;
use crate::fat::{status_of, FatEntry, Status};
use crate::util::le_u32;

verus! {

/// The geometry of a mounted FAT32 volume.
#[derive(PartialEq, Eq, Structural, Debug, Copy, Clone)]
pub struct Geometry {
    /// The size of a logical sector in bytes.
    pub bytes_per_sector: u16,
    pub sectors_per_cluster: u8,
    /// The number of sectors of one file allocation table.
    pub sectors_per_fat: u32,
    /// The sector at which the first file allocation table starts.
    pub fat_start_sector: u64,
    /// The sector at which cluster 2, the first data cluster, starts.
    pub data_start_sector: u64,
    /// The cluster at which the root directory starts.
    pub root_dir_cluster: Cluster,
}

impl Geometry {
    /// The geometry of the volume that starts at sector `start` of the disk
    /// and has the parameter block `bpb`.
    pub open spec fn of(start: u32, bpb: BiosParameterBlock) -> Geometry {
        Geometry {
            bytes_per_sector: bpb.bytes_per_sector,
            sectors_per_cluster: bpb.sectors_per_cluster,
            sectors_per_fat: bpb.spec_sectors_per_fat(),
            fat_start_sector: (start + bpb.reserved_sectors) as u64,
            data_start_sector: (start + bpb.reserved_sectors + bpb.fat_num
                * bpb.spec_sectors_per_fat()) as u64,
            root_dir_cluster: Cluster(crate::cluster::cluster_bits(bpb.root_cluster)),
        }
    }

    /// Computes the geometry of the volume that starts at sector `start` of
    /// the disk and has the parameter block `bpb`.
    pub fn compute(start: u32, bpb: &BiosParameterBlock) -> (g: Geometry)
        ensures
            g == Geometry::of(start, *bpb),
            g.fat_start_sector == start + bpb.reserved_sectors,
            g.data_start_sector == g.fat_start_sector + bpb.fat_num * g.sectors_per_fat,
            g.fat_start_sector <= g.data_start_sector < 0x200_0000_0000,
            g.root_dir_cluster.0 < 0x1000_0000,
    {
        let fat_start_sector: u64 = start as u64 + bpb.reserved_sectors as u64;
        let sectors_per_fat: u32 = bpb.get_sector_per_fat();
        assert(bpb.fat_num * sectors_per_fat <= 255 * 0xFFFF_FFFF) by (nonlinear_arith)
            requires
                bpb.fat_num <= 255,
                sectors_per_fat <= 0xFFFF_FFFF,
        ;
        let data_start_sector: u64 = fat_start_sector + (bpb.fat_num as u64) * (
        sectors_per_fat as u64);
        Geometry {
            bytes_per_sector: bpb.bytes_per_sector,
            sectors_per_cluster: bpb.sectors_per_cluster,
            sectors_per_fat,
            fat_start_sector,
            data_start_sector,
            root_dir_cluster: Cluster::from(bpb.root_cluster),
        }
    }

    /// What the driver needs of a geometry: sectors that hold whole FAT
    /// entries, clusters that are not empty, and tables that lie before the
    /// data and within the reach of 32-bit sector numbers.
    pub open spec fn wf(&self) -> bool {
        &&& self.bytes_per_sector > 0
        &&& self.bytes_per_sector % 4 == 0
        &&& self.sectors_per_cluster > 0
        &&& self.fat_start_sector <= self.data_start_sector < 0x200_0000_0000
        &&& self.root_dir_cluster.0 < 0x1000_0000
    }

    /// Checks what [`Geometry::wf`] states.
    pub fn is_valid(&self) -> (b: bool)
        ensures
            b == self.wf(),
    {
        self.bytes_per_sector > 0 && self.bytes_per_sector % 4 == 0 && self.sectors_per_cluster > 0
            && self.fat_start_sector <= self.data_start_sector && self.data_start_sector
            < 0x200_0000_0000 && self.root_dir_cluster.get() < 0x1000_0000
    }

    /// The size of a cluster in bytes.
    pub open spec fn bytes_per_cluster(&self) -> int {
        self.bytes_per_sector as int * self.sectors_per_cluster as int
    }

    /// The first sector of the data cluster `c`.
    pub open spec fn cluster_to_sector(&self, c: Cluster) -> int {
        self.data_start_sector + (c.0 - 2) * self.sectors_per_cluster
    }

    /// The number of whole clusters in a volume whose data region ends at
    /// sector `end_sector`.
    pub open spec fn cluster_count(&self, end_sector: int) -> int {
        (end_sector - self.data_start_sector) / (self.sectors_per_cluster as int)
    }

    /// A data cluster lies where the formula says, and within the volume:
    /// for a cluster `c` from 2 on that is one of the volume's clusters, the
    /// sectors of `c` start at `data_start_sector + (c - 2) *
    /// sectors_per_cluster`, at or behind the start of the data region, and
    /// end at or before the end of the volume.
    pub proof fn lemma_cluster_within_volume(&self, c: Cluster, end_sector: int)
        requires
            self.sectors_per_cluster > 0,
            self.data_start_sector <= end_sector,
            2 <= c.0,
            c.0 - 2 < self.cluster_count(end_sector),
        ensures
            self.cluster_to_sector(c) == self.data_start_sector + (c.0 - 2)
                * self.sectors_per_cluster,
            self.data_start_sector <= self.cluster_to_sector(c),
            self.cluster_to_sector(c) + self.sectors_per_cluster <= end_sector,
    {
        let spc = self.sectors_per_cluster as int;
        let n = end_sector - self.data_start_sector;
        let k = c.0 - 2;
        assert(k * spc >= 0 && (k + 1) * spc <= n) by (nonlinear_arith)
            requires
                spc > 0,
                n >= 0,
                0 <= k < n / spc,
        ;
        assert((k + 1) * spc == k * spc + spc) by (nonlinear_arith);
    }
}

/// The sector of the file allocation table that holds the entry of `c`,
/// counted from the start of the table.
pub open spec fn fat_sector_offset(geo: Geometry, c: Cluster) -> int {
    (4 * c.0) / (geo.bytes_per_sector as int)
}

/// The offset of the entry of `c` within its sector.
pub open spec fn fat_byte_offset(geo: Geometry, c: Cluster) -> int {
    (4 * c.0) % (geo.bytes_per_sector as int)
}

/// The entry of cluster `c` in the file allocation table: `NotFound` for a
/// cluster beyond the table, else the 32-bit little-endian cell at byte
/// `4 * c` of the table.
pub open spec fn fat_entry_at(geo: Geometry, disk: Map<u64, Seq<u8>>, c: Cluster) -> Result<
    FatEntry,
    ErrorKind,
> {
    let sector = (geo.fat_start_sector + fat_sector_offset(geo, c)) as u64;
    if fat_sector_offset(geo, c) >= geo.sectors_per_fat {
        Err(ErrorKind::NotFound)
    } else if !disk.contains_key(sector) {
        Err(ErrorKind::Io)
    } else {
        Ok(FatEntry(le_u32(disk[sector], fat_byte_offset(geo, c))))
    }
}

/// Where the chain goes on behind cluster `c`: to the next cluster, or
/// nowhere if `c` is the last of its chain. A free, reserved or bad entry
/// is `InvalidData`.
pub open spec fn chain_step(geo: Geometry, disk: Map<u64, Seq<u8>>, c: Cluster) -> Result<
    Option<Cluster>,
    ErrorKind,
> {
    match fat_entry_at(geo, disk, c) {
        Err(e) => Err(e),
        Ok(entry) => match status_of(entry.0) {
            Status::Data(next) => Ok(Some(next)),
            Status::Eoc(_) => Ok(None),
            _ => Err(ErrorKind::InvalidData),
        },
    }
}

/// The bytes of the `count` sectors from sector `first` on.
pub open spec fn sectors_bytes(disk: Map<u64, Seq<u8>>, first: int, count: nat) -> Result<
    Seq<u8>,
    ErrorKind,
>
    decreases count,
{
    if count == 0 {
        Ok(Seq::empty())
    } else {
        let last = first + count - 1;
        match sectors_bytes(disk, first, (count - 1) as nat) {
            Err(e) => Err(e),
            Ok(bytes) => if 0 <= last <= u64::MAX && disk.contains_key(last as u64) {
                Ok(bytes + disk[last as u64])
            } else {
                Err(ErrorKind::Io)
            },
        }
    }
}

/// The bytes of cluster `c`: those of its sectors, in order. Clusters 0 and
/// 1 hold no data, so asking for theirs is `InvalidData`.
pub open spec fn cluster_data(geo: Geometry, disk: Map<u64, Seq<u8>>, c: Cluster) -> Result<
    Seq<u8>,
    ErrorKind,
> {
    if c.0 < 2 {
        Err(ErrorKind::InvalidData)
    } else {
        sectors_bytes(disk, geo.cluster_to_sector(c), geo.sectors_per_cluster as nat)
    }
}

/// `bytes` followed by what `rest` holds, or the error of `rest`.
pub open spec fn prepend(bytes: Seq<u8>, rest: Result<Seq<u8>, ErrorKind>) -> Result<
    Seq<u8>,
    ErrorKind,
> {
    match rest {
        Ok(more) => Ok(bytes + more),
        Err(e) => Err(e),
    }
}

/// The bytes of the chain that starts at cluster `c`: the data of each of
/// its clusters, in order, up to and with the cluster whose entry marks the
/// end of the chain.
///
/// The entry of a cluster is looked up before its data is read, and the
/// data of a cluster is read before the next entry is looked up; the first
/// thing that fails decides the error. `avail` is the number of bytes that
/// may still be taken: a chain that holds more is `InvalidData`.
pub open spec fn chain_bytes(geo: Geometry, disk: Map<u64, Seq<u8>>, c: Cluster, avail: nat) -> Result<
    Seq<u8>,
    ErrorKind,
>
    decreases avail,
{
    match chain_step(geo, disk, c) {
        Err(e) => Err(e),
        Ok(next) => if avail < geo.bytes_per_cluster() || geo.bytes_per_cluster() <= 0 {
            Err(ErrorKind::InvalidData)
        } else {
            match cluster_data(geo, disk, c) {
                Err(e) => Err(e),
                Ok(data) => match next {
                    None => Ok(data),
                    Some(n) => prepend(
                        data,
                        chain_bytes(geo, disk, n, (avail - geo.bytes_per_cluster()) as nat),
                    ),
                },
            }
        },
    }
}

/// The clusters of the chain that starts at cluster `c`, as far as the
/// entries of `limit` clusters lead: each cluster but the last is followed
/// by the cluster that its entry names.
pub open spec fn chain_clusters(
    geo: Geometry,
    disk: Map<u64, Seq<u8>>,
    c: Cluster,
    limit: nat,
) -> Result<Seq<Cluster>, ErrorKind>
    decreases limit,
{
    if limit == 0 {
        Ok(Seq::empty())
    } else {
        match chain_step(geo, disk, c) {
            Err(e) => Err(e),
            Ok(None) => Ok(seq![c]),
            Ok(Some(n)) => match chain_clusters(geo, disk, n, (limit - 1) as nat) {
                Err(e) => Err(e),
                Ok(rest) => Ok(seq![c] + rest),
            },
        }
    }
}

/// What a read of `len` bytes gives that starts `within` bytes into the
/// cluster that lies `skip` clusters down the chain from cluster `c`.
///
/// The chain is followed only as far as the read needs it: the read stops
/// as soon as `len` bytes are there, and it is short only where the chain
/// ends before that. A read of no bytes looks at nothing.
pub open spec fn read_at(
    geo: Geometry,
    disk: Map<u64, Seq<u8>>,
    c: Cluster,
    skip: nat,
    within: nat,
    len: nat,
) -> Result<Seq<u8>, ErrorKind>
    decreases skip, len,
{
    if len == 0 {
        Ok(Seq::empty())
    } else {
        match chain_step(geo, disk, c) {
            Err(e) => Err(e),
            Ok(next) => if skip > 0 {
                match next {
                    None => Ok(Seq::empty()),
                    Some(n) => read_at(geo, disk, n, (skip - 1) as nat, within, len),
                }
            } else {
                match cluster_data(geo, disk, c) {
                    Err(e) => Err(e),
                    Ok(data) => {
                        let take = vstd::math::min(len as int, geo.bytes_per_cluster() - within);
                        if take <= 0 {
                            Ok(Seq::empty())
                        } else {
                            let part = data.subrange(within as int, within + take);
                            if take == len {
                                Ok(part)
                            } else {
                                match next {
                                    None => Ok(part),
                                    Some(n) => prepend(
                                        part,
                                        read_at(geo, disk, n, 0, 0, (len - take) as nat),
                                    ),
                                }
                            }
                        }
                    },
                }
            },
        }
    }
}

/// An entry of the table that was read stays what it is when the cache
/// grows.
pub proof fn lemma_fat_entry_stable(
    geo: Geometry,
    d1: Map<u64, Seq<u8>>,
    d2: Map<u64, Seq<u8>>,
    c: Cluster,
)
    requires
        d1.submap_of(d2),
        fat_entry_at(geo, d1, c) != Err::<FatEntry, ErrorKind>(ErrorKind::Io),
    ensures
        fat_entry_at(geo, d2, c) == fat_entry_at(geo, d1, c),
        chain_step(geo, d2, c) == chain_step(geo, d1, c),
{
}

/// A link of a chain that was read stays what it is when the cache grows.
pub proof fn lemma_chain_step_stable(
    geo: Geometry,
    d1: Map<u64, Seq<u8>>,
    d2: Map<u64, Seq<u8>>,
    c: Cluster,
)
    requires
        d1.submap_of(d2),
        chain_step(geo, d1, c) != Err::<Option<Cluster>, ErrorKind>(ErrorKind::Io),
    ensures
        chain_step(geo, d2, c) == chain_step(geo, d1, c),
{
}

/// Sectors that were read stay what they are when the cache grows, and a
/// run of sectors fails only for want of a sector.
pub proof fn lemma_sectors_bytes_stable(
    d1: Map<u64, Seq<u8>>,
    d2: Map<u64, Seq<u8>>,
    first: int,
    count: nat,
)
    requires
        d1.submap_of(d2),
    ensures
        sectors_bytes(d1, first, count) is Ok ==> sectors_bytes(d2, first, count) == sectors_bytes(
            d1,
            first,
            count,
        ),
        sectors_bytes(d1, first, count) is Err ==> sectors_bytes(d1, first, count) == Err::<
            Seq<u8>,
            ErrorKind,
        >(ErrorKind::Io),
    decreases count,
{
    if count > 0 {
        lemma_sectors_bytes_stable(d1, d2, first, (count - 1) as nat);
    }
}

/// A run of sectors one of which the cache does not hold cannot be read
/// without the device.
pub proof fn lemma_sectors_bytes_missing(disk: Map<u64, Seq<u8>>, first: int, count: nat, k: int)
    requires
        0 <= k < count,
        0 <= first + k <= u64::MAX,
    ensures
        !disk.contains_key((first + k) as u64) ==> sectors_bytes(disk, first, count) == Err::<
            Seq<u8>,
            ErrorKind,
        >(ErrorKind::Io),
    decreases count,
{
    if k < count - 1 {
        lemma_sectors_bytes_missing(disk, first, (count - 1) as nat, k);
    } else {
        lemma_sectors_bytes_stable(disk, disk, first, (count - 1) as nat);
    }
}

/// The data of a cluster that was read stays what it is when the cache
/// grows.
pub proof fn lemma_cluster_data_stable(
    geo: Geometry,
    d1: Map<u64, Seq<u8>>,
    d2: Map<u64, Seq<u8>>,
    c: Cluster,
)
    requires
        d1.submap_of(d2),
        cluster_data(geo, d1, c) != Err::<Seq<u8>, ErrorKind>(ErrorKind::Io),
    ensures
        cluster_data(geo, d2, c) == cluster_data(geo, d1, c),
{
    if c.0 >= 2 {
        lemma_sectors_bytes_stable(
            d1,
            d2,
            geo.cluster_to_sector(c),
            geo.sectors_per_cluster as nat,
        );
    }
}

/// Whether every sector of `disk` has `size` bytes.
pub open spec fn sectors_sized(disk: Map<u64, Seq<u8>>, size: int) -> bool {
    forall|n: u64| #[trigger] disk.contains_key(n) ==> disk[n].len() == size
}

/// A run of `count` sectors of `size` bytes each has `count * size` bytes.
pub proof fn lemma_sectors_bytes_len(disk: Map<u64, Seq<u8>>, first: int, count: nat, size: int)
    requires
        sectors_sized(disk, size),
    ensures
        sectors_bytes(disk, first, count) matches Ok(bytes) ==> bytes.len() == count * size,
    decreases count,
{
    if count > 0 {
        lemma_sectors_bytes_len(disk, first, (count - 1) as nat, size);
        assert(count * size == (count - 1) * size + size) by (nonlinear_arith);
    } else {
        assert(count * size == 0) by (nonlinear_arith)
            requires
                count == 0,
        ;
    }
}

/// The data of a cluster has the size of a cluster.
pub proof fn lemma_cluster_data_len(geo: Geometry, disk: Map<u64, Seq<u8>>, c: Cluster)
    requires
        sectors_sized(disk, geo.bytes_per_sector as int),
    ensures
        cluster_data(geo, disk, c) matches Ok(data) ==> data.len() == geo.bytes_per_cluster(),
{
    if c.0 >= 2 {
        lemma_sectors_bytes_len(
            disk,
            geo.cluster_to_sector(c),
            geo.sectors_per_cluster as nat,
            geo.bytes_per_sector as int,
        );
        assert(geo.sectors_per_cluster as nat * (geo.bytes_per_sector as int)
            == geo.bytes_per_cluster()) by (nonlinear_arith);
    }
}

/// A chain that was read stays what it is when the cache grows: once
/// the cache holds all that a chain needs, reading the chain again gives
/// the same bytes, or the same error, whatever else is read in between.
pub proof fn lemma_chain_bytes_stable(
    geo: Geometry,
    d1: Map<u64, Seq<u8>>,
    d2: Map<u64, Seq<u8>>,
    c: Cluster,
    avail: nat,
)
    requires
        d1.submap_of(d2),
        chain_bytes(geo, d1, c, avail) != Err::<Seq<u8>, ErrorKind>(ErrorKind::Io),
    ensures
        chain_bytes(geo, d2, c, avail) == chain_bytes(geo, d1, c, avail),
    decreases avail,
{
    lemma_chain_step_stable(geo, d1, d2, c);
    if let Ok(next) = chain_step(geo, d1, c) {
        if !(avail < geo.bytes_per_cluster() || geo.bytes_per_cluster() <= 0) {
            lemma_cluster_data_stable(geo, d1, d2, c);
            if cluster_data(geo, d1, c) is Ok {
                if let Some(n) = next {
                    lemma_chain_bytes_stable(
                        geo,
                        d1,
                        d2,
                        n,
                        (avail - geo.bytes_per_cluster()) as nat,
                    );
                }
            }
        }
    }
}

/// A read that was made stays what it is when the cache grows: a file
/// that was read in full reads the same again after a seek back to where
/// the first read started.
pub proof fn lemma_read_at_stable(
    geo: Geometry,
    d1: Map<u64, Seq<u8>>,
    d2: Map<u64, Seq<u8>>,
    c: Cluster,
    skip: nat,
    within: nat,
    len: nat,
)
    requires
        d1.submap_of(d2),
        read_at(geo, d1, c, skip, within, len) != Err::<Seq<u8>, ErrorKind>(ErrorKind::Io),
    ensures
        read_at(geo, d2, c, skip, within, len) == read_at(geo, d1, c, skip, within, len),
    decreases skip, len,
{
    if len > 0 {
        lemma_chain_step_stable(geo, d1, d2, c);
        if let Ok(next) = chain_step(geo, d1, c) {
            if skip > 0 {
                if let Some(n) = next {
                    lemma_read_at_stable(geo, d1, d2, n, (skip - 1) as nat, within, len);
                }
            } else {
                lemma_cluster_data_stable(geo, d1, d2, c);
                if cluster_data(geo, d1, c) is Ok {
                    let take = vstd::math::min(len as int, geo.bytes_per_cluster() - within);
                    if take > 0 && take != len {
                        if let Some(n) = next {
                            lemma_read_at_stable(geo, d1, d2, n, 0, 0, (len - take) as nat);
                        }
                    }
                }
            }
        }
    }
}

/// Walking a chain from cluster `c` yields `c` first; the entry of every
/// cluster that is yielded but the last names the cluster yielded next; and
/// where the walk ended by itself, the entry of the last cluster marks the
/// end of the chain.
pub proof fn lemma_chain_links(geo: Geometry, disk: Map<u64, Seq<u8>>, c: Cluster, limit: nat)
    ensures
        chain_clusters(geo, disk, c, limit) matches Ok(cs) ==> {
            &&& cs.len() <= limit
            &&& limit > 0 ==> cs.len() > 0 && cs[0] == c
            &&& forall|i: int|
                0 <= i < cs.len() - 1 ==> (fat_entry_at(geo, disk, #[trigger] cs[i]) matches Ok(e)
                    && status_of(e.0) == Status::Data(cs[i + 1]))
            &&& 0 < cs.len() < limit ==> (fat_entry_at(geo, disk, cs.last()) matches Ok(e)
                && status_of(e.0) is Eoc)
        },
    decreases limit,
{
    if limit > 0 {
        if let Ok(Some(n)) = chain_step(geo, disk, c) {
            lemma_chain_links(geo, disk, n, (limit - 1) as nat);
            if let Ok(rest) = chain_clusters(geo, disk, n, (limit - 1) as nat) {
                let cs = seq![c] + rest;
                assert forall|i: int| 0 <= i < cs.len() - 1 implies (fat_entry_at(
                    geo,
                    disk,
                    #[trigger] cs[i],
                ) matches Ok(e) && status_of(e.0) == Status::Data(cs[i + 1])) by {
                    if i > 0 {
                        assert(cs[i] == rest[i - 1]);
                        assert(cs[i + 1] == rest[i]);
                    } else {
                        assert(cs[1] == rest[0]);
                    }
                }
                if rest.len() > 0 {
                    assert(cs.last() == rest.last());
                }
            }
        }
    }
}

/// Reading a chain of `k` clusters gives exactly `k` times the bytes of a
/// cluster: the data of its clusters, one behind the other.
pub proof fn lemma_chain_bytes_len(
    geo: Geometry,
    disk: Map<u64, Seq<u8>>,
    c: Cluster,
    avail: nat,
    k: nat,
)
    requires
        sectors_sized(disk, geo.bytes_per_sector as int),
        chain_clusters(geo, disk, c, k + 1) matches Ok(cs) && cs.len() == k,
        chain_bytes(geo, disk, c, avail) is Ok,
    ensures
        chain_bytes(geo, disk, c, avail)->Ok_0.len() == k * geo.bytes_per_cluster(),
        forall|i: int|
            0 <= i < k ==> cluster_data(
                geo,
                disk,
                #[trigger] chain_clusters(geo, disk, c, k + 1)->Ok_0[i],
            ) == Ok::<Seq<u8>, ErrorKind>(
                chain_bytes(geo, disk, c, avail)->Ok_0.subrange(
                    i * geo.bytes_per_cluster(),
                    (i + 1) * geo.bytes_per_cluster(),
                ),
            ),
    decreases k,
{
    let cb = geo.bytes_per_cluster();
    let bytes = chain_bytes(geo, disk, c, avail)->Ok_0;
    let cs = chain_clusters(geo, disk, c, k + 1)->Ok_0;
    let data = cluster_data(geo, disk, c)->Ok_0;
    lemma_cluster_data_len(geo, disk, c);
    match chain_step(geo, disk, c) {
        Ok(Some(n)) => {
            let rest = chain_clusters(geo, disk, n, k)->Ok_0;
            assert(cs == seq![c] + rest);
            assert(rest.len() == k - 1);
            let more = chain_bytes(geo, disk, n, (avail - cb) as nat)->Ok_0;
            lemma_chain_bytes_len(geo, disk, n, (avail - cb) as nat, (k - 1) as nat);
            assert(k * cb == cb + (k - 1) * cb) by (nonlinear_arith);
            assert forall|i: int| 0 <= i < k implies cluster_data(geo, disk, #[trigger] cs[i]) == Ok::<
                Seq<u8>,
                ErrorKind,
            >(bytes.subrange(i * cb, (i + 1) * cb)) by {
                assert((i + 1) * cb == i * cb + cb) by (nonlinear_arith);
                if i == 0 {
                    assert(bytes.subrange(0, cb) =~= data);
                } else {
                    assert(cs[i] == rest[i - 1]);
                    assert(i * cb == cb + (i - 1) * cb) by (nonlinear_arith);
                    assert((i - 1) * cb >= 0 && i * cb <= (k - 1) * cb) by (nonlinear_arith)
                        requires
                            1 <= i < k,
                            cb > 0,
                    ;
                    assert(bytes.subrange(i * cb, (i + 1) * cb) =~= more.subrange(
                        (i - 1) * cb,
                        i * cb,
                    ));
                }
            }
        },
        _ => {
            assert(cs == seq![c]);
            assert(k * cb == cb) by (nonlinear_arith)
                requires
                    k == 1,
            ;
            assert(bytes.subrange(0, cb) =~= data);
            assert forall|i: int| 0 <= i < k implies cluster_data(geo, disk, #[trigger] cs[i]) == Ok::<
                Seq<u8>,
                ErrorKind,
            >(bytes.subrange(i * cb, (i + 1) * cb)) by {
                assert(i * cb == 0 && (i + 1) * cb == cb) by (nonlinear_arith)
                    requires
                        i == 0,
                ;
            }
        },
    }
}

/// Reading from a chain at an offset gives the bytes that reading the
/// whole chain gives at that offset: where the chain can be read in full,
/// [`read_at`] is a window into [`chain_bytes`], cut where the chain ends.
/// So reads of neighbouring windows, put together, are the chain itself.
pub proof fn lemma_read_at_window(
    geo: Geometry,
    disk: Map<u64, Seq<u8>>,
    c: Cluster,
    avail: nat,
    skip: nat,
    within: nat,
    len: nat,
)
    requires
        sectors_sized(disk, geo.bytes_per_sector as int),
        within < geo.bytes_per_cluster(),
        chain_bytes(geo, disk, c, avail) is Ok,
    ensures
        ({
            let all = chain_bytes(geo, disk, c, avail)->Ok_0;
            let start = skip * geo.bytes_per_cluster() + within;
            read_at(geo, disk, c, skip, within, len) == Ok::<Seq<u8>, ErrorKind>(
                all.subrange(
                    vstd::math::min(start, all.len() as int),
                    vstd::math::min(start + len, all.len() as int),
                ),
            )
        }),
    decreases skip, len,
{
    let cb = geo.bytes_per_cluster();
    let all = chain_bytes(geo, disk, c, avail)->Ok_0;
    let start = skip * cb + within;
    let lo = vstd::math::min(start, all.len() as int);
    let hi = vstd::math::min(start + len, all.len() as int);
    let data = cluster_data(geo, disk, c)->Ok_0;
    let next = chain_step(geo, disk, c)->Ok_0;
    lemma_cluster_data_len(geo, disk, c);
    assert(skip * cb >= 0 && (skip > 0 ==> skip * cb >= cb) && (skip == 0 ==> skip * cb == 0))
        by (nonlinear_arith)
        requires
            cb > 0,
    ;
    if len == 0 {
        assert(all.subrange(lo, hi) =~= Seq::<u8>::empty());
    } else if skip > 0 {
        match next {
            None => {
                assert(all.subrange(lo, hi) =~= Seq::<u8>::empty());
            },
            Some(n) => {
                let rest = chain_bytes(geo, disk, n, (avail - cb) as nat)->Ok_0;
                lemma_read_at_window(
                    geo,
                    disk,
                    n,
                    (avail - cb) as nat,
                    (skip - 1) as nat,
                    within,
                    len,
                );
                assert((skip - 1) * cb == skip * cb - cb) by (nonlinear_arith);
                let start1 = (skip - 1) * cb + within;
                let lo1 = vstd::math::min(start1, rest.len() as int);
                let hi1 = vstd::math::min(start1 + len, rest.len() as int);
                assert(all.subrange(lo, hi) =~= rest.subrange(lo1, hi1));
            },
        }
    } else {
        let take = vstd::math::min(len as int, cb - within);
        let part = data.subrange(within as int, within + take);
        if take == len {
            assert(all.subrange(lo, hi) =~= part);
        } else {
            match next {
                None => {
                    assert(all.subrange(lo, hi) =~= part);
                },
                Some(n) => {
                    let rest = chain_bytes(geo, disk, n, (avail - cb) as nat)->Ok_0;
                    lemma_read_at_window(geo, disk, n, (avail - cb) as nat, 0, 0, (len - take) as nat);
                    assert(0 * cb == 0) by (nonlinear_arith);
                    let hi1 = vstd::math::min(len - take, rest.len() as int);
                    assert(all.subrange(lo, hi) =~= part + rest.subrange(0, hi1));
                },
            }
        }
    }
}

} // verus!
