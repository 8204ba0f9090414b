use vstd::prelude::*;
use std::collections::HashMap;
use crate::error::Error;
use crate::traits::BlockDevice;
use crate::util::copy_into;

verus! {

broadcast use vstd::std_specs::hash::group_hash_axioms;

/// A cached logical sector.
struct CacheEntry {
    data: Vec<u8>,
    dirty: bool,
}

/// Where a partition starts and how large its sectors are.
#[derive(PartialEq, Eq, Structural, Debug, Copy, Clone)]
pub struct Partition {
    /// The physical sector at which the partition begins.
    pub start: u64,
    /// The size, in bytes, of a logical sector in the partition.
    pub sector_size: u64,
}

/// A block device seen through a cache of logical sectors.
///
/// A sector is read from the device when it is first asked for and is kept
/// from then on: the cache never evicts, and an entry changes only where
/// a caller writes to it through [`CachedDevice::get_mut`].
pub struct CachedDevice<D: BlockDevice> {
    device: D,
    cache: HashMap<u64, CacheEntry>,
    partition: Partition,
}

/// The first physical sector, and the number of physical sectors, that hold
/// the sector `sector` of a device with sectors of `physical` bytes, seen
/// through a partition that starts at `start` and has sectors of `logical`
/// bytes.
///
/// Where both sizes agree, or before the partition, a sector is the
/// physical sector of the same number. Inside the partition a logical
/// sector covers `logical / physical` consecutive physical sectors.
pub open spec fn physical_of(start: u64, logical: u64, physical: u64, sector: u64) -> (int, int) {
    if physical == logical || sector < start {
        (sector as int, 1)
    } else {
        let factor = logical as int / physical as int;
        (start + (sector - start) * factor, factor)
    }
}

/// The byte sequences `chunks`, one behind the other.
pub open spec fn concat(chunks: Seq<Seq<u8>>) -> Seq<u8>
    decreases chunks.len(),
{
    if chunks.len() == 0 {
        Seq::empty()
    } else {
        concat(chunks.drop_last()) + chunks.last()
    }
}

/// The logical sector of `logical` bytes that is made of the physical
/// sectors `chunks`: the chunks one behind the other, followed by zeros up
/// to `logical` bytes, or cut at `logical` bytes where they hold more.
pub open spec fn joined(chunks: Seq<Seq<u8>>, logical: int) -> Seq<u8> {
    let all = concat(chunks);
    if all.len() >= logical {
        all.subrange(0, logical)
    } else {
        all + Seq::new((logical - all.len()) as nat, |i: int| 0u8)
    }
}

/// What the vectors `chunks` hold, as sequences of bytes.
pub open spec fn chunk_views(chunks: Seq<Vec<u8>>) -> Seq<Seq<u8>> {
    Seq::new(chunks.len(), |i: int| chunks[i]@)
}

/// Makes one logical sector of `logical` bytes out of what the device
/// delivered for the physical sectors that hold it.
///
/// The physical sectors stand one behind the other in the order in which
/// they were read. Where they hold less than a logical sector, as for a
/// sector before the partition, the rest is zero.
pub fn join_sectors(chunks: &Vec<Vec<u8>>, logical: usize) -> (buf: Vec<u8>)
    ensures
        buf@ == joined(chunk_views(chunks@), logical as int),
        buf@.len() == logical,
{
    let mut buf: Vec<u8> = Vec::new();
    let mut i: usize = 0;
    assert(chunk_views(chunks@).subrange(0, 0) =~= Seq::<Seq<u8>>::empty());
    while i < chunks.len()
        invariant
            i <= chunks@.len(),
            buf@ == concat(chunk_views(chunks@).subrange(0, i as int)),
        decreases chunks@.len() - i,
    {
        let ghost held = buf@;
        let ghost longer = chunk_views(chunks@).subrange(0, i + 1);
        assert(longer.drop_last() =~= chunk_views(chunks@).subrange(0, i as int));
        assert(longer.last() == chunks@[i as int]@);
        buf.extend_from_slice(chunks[i].as_slice());
        assert(buf@ =~= held + chunks@[i as int]@);
        i += 1;
    }
    assert(chunk_views(chunks@).subrange(0, chunks@.len() as int) =~= chunk_views(chunks@));
    buf.resize(logical, 0u8);
    assert(buf@ =~= joined(chunk_views(chunks@), logical as int));
    buf
}

/// The bytes of the sectors in a map of cache entries.
spec fn bytes_of(cache: Map<u64, CacheEntry>) -> Map<u64, Seq<u8>> {
    Map::new(|n: u64| cache.contains_key(n), |n: u64| cache[n].data@)
}

/// `HashMap::get_mut`, for a sector that the map holds: a mutable
/// reference to the bytes of that sector. Whatever is written through the
/// reference is what the map holds for the sector afterwards; the bytes of
/// its other sectors, and the number of bytes of this one, stay as they
/// were.
#[verifier::external_body]
fn cached_bytes_mut(cache: &mut HashMap<u64, CacheEntry>, sector: u64) -> (data: &mut [u8])
    requires
        old(cache)@.contains_key(sector),
    ensures
        data@ == old(cache)@[sector].data@,
        final(data)@.len() == data@.len(),
        bytes_of(final(cache)@) == bytes_of(old(cache)@).insert(sector, final(data)@),
{
    cache.get_mut(&sector).unwrap().data.as_mut_slice()
}

impl<D: BlockDevice> CachedDevice<D> {
    /// The sectors that the cache holds, by logical sector number.
    pub closed spec fn sectors(&self) -> Map<u64, Seq<u8>> {
        bytes_of(self.cache@)
    }

    /// The partition through which the device is seen.
    pub closed spec fn spec_partition(&self) -> Partition {
        self.partition
    }

    /// The sector size of the device underneath.
    pub closed spec fn device_sector_size(&self) -> u64 {
        self.device.spec_sector_size()
    }

    /// The invariant of the cache: the sizes fit each other and every
    /// cached sector has the size of a logical sector.
    pub closed spec fn wf(&self) -> bool {
        &&& 0 < self.device.spec_sector_size() <= self.partition.sector_size <= usize::MAX
        &&& forall|n: u64| #[trigger]
            bytes_of(self.cache@).contains_key(n) ==> bytes_of(self.cache@)[n].len()
                == self.partition.sector_size
    }

    /// Whether the physical sectors that hold `sector` have numbers that
    /// fit in 64 bits.
    pub open spec fn addressable(&self, sector: u64) -> bool {
        let (first, count) = physical_of(
            self.spec_partition().start,
            self.spec_partition().sector_size,
            self.device_sector_size(),
            sector,
        );
        first + count - 1 <= u64::MAX
    }

    /// The sizes that a cache in good order has: sectors of the device that
    /// are not empty and not larger than those of the partition, and cached
    /// sectors of the partition's sector size.
    pub proof fn lemma_sizes(&self)
        requires
            self.wf(),
        ensures
            0 < self.device_sector_size() <= self.spec_partition().sector_size <= usize::MAX,
            forall|n: u64| #[trigger]
                self.sectors().contains_key(n) ==> self.sectors()[n].len()
                    == self.spec_partition().sector_size,
    {
    }

    /// Creates a cache over `device` with nothing in it.
    ///
    /// The partition's sector size must not be smaller than the device's.
    pub fn new(device: D, partition: Partition) -> (c: CachedDevice<D>)
        requires
            0 < device.spec_sector_size() <= partition.sector_size <= usize::MAX,
        ensures
            c.wf(),
            c.sectors() == Map::<u64, Seq<u8>>::empty(),
            c.spec_partition() == partition,
            c.device_sector_size() == device.spec_sector_size(),
    {
        let c = CachedDevice { device, cache: HashMap::new(), partition };
        assert(c.sectors() =~= Map::<u64, Seq<u8>>::empty());
        c
    }

    /// Maps a logical sector to the first physical sector that holds it and
    /// the number of physical sectors it covers.
    pub fn virtual_to_physical(&self, virt: u64) -> (r: (u64, u64))
        requires
            self.wf(),
            self.addressable(virt),
        ensures
            (r.0 as int, r.1 as int) == physical_of(
                self.spec_partition().start,
                self.spec_partition().sector_size,
                self.device_sector_size(),
                virt,
            ),
            r.1 >= 1,
            r.1 * self.device_sector_size() <= self.spec_partition().sector_size,
    {
        let physical: u64 = self.device.sector_size();
        if physical == self.partition.sector_size {
            (virt, 1)
        } else if virt < self.partition.start {
            (virt, 1)
        } else {
            let factor: u64 = self.partition.sector_size / physical;
            let logical_offset: u64 = virt - self.partition.start;
            assert(factor >= 1 && factor * physical <= self.partition.sector_size) by (nonlinear_arith)
                requires
                    0 < physical <= self.partition.sector_size,
                    factor == self.partition.sector_size / physical,
            ;
            assert(logical_offset * factor <= self.partition.start + logical_offset * factor + factor
                - 1) by (nonlinear_arith)
                requires
                    factor >= 1,
            ;
            let physical_offset: u64 = logical_offset * factor;
            let physical_sector: u64 = self.partition.start + physical_offset;
            (physical_sector, factor)
        }
    }

    /// Makes sure that `sector` is in the cache, reading it from the device
    /// if it is not there yet: the physical sectors that
    /// [`CachedDevice::virtual_to_physical`] names are read in order, and
    /// what they deliver is joined by [`join_sectors`].
    fn ensure_cache(&mut self, sector: u64) -> (r: Result<(), std::io::Error>)
        requires
            old(self).wf(),
            old(self).addressable(sector),
        ensures
            final(self).wf(),
            final(self).spec_partition() == old(self).spec_partition(),
            final(self).device_sector_size() == old(self).device_sector_size(),
            old(self).sectors().contains_key(sector) ==> r is Ok && final(self).sectors() == old(
                self).sectors(),
            r is Err ==> final(self).sectors() == old(self).sectors(),
            r is Ok ==> final(self).sectors().contains_key(sector) && final(self).sectors() == old(
                self).sectors().insert(sector, final(self).sectors()[sector]),
    {
        if !self.cache.contains_key(&sector) {
            let logical: usize = self.partition.sector_size as usize;
            let physical: u64 = self.device.sector_size();
            let (first, count) = self.virtual_to_physical(sector);
            let mut chunks: Vec<Vec<u8>> = Vec::new();
            let mut i: u64 = 0;
            while i < count
                invariant
                    i <= count,
                    first + count - 1 <= u64::MAX,
                    physical <= usize::MAX,
                    old(self).wf(),
                    !old(self).cache@.contains_key(sector),
                    self.cache == old(self).cache,
                    self.partition == old(self).partition,
                    self.device.spec_sector_size() == old(self).device.spec_sector_size(),
                decreases count - i,
            {
                let mut chunk: Vec<u8> = vec![0u8; physical as usize];
                match self.device.read_sector(first + i, chunk.as_mut_slice()) {
                    Err(e) => {
                        assert(self.sectors() =~= old(self).sectors());
                        return Err(e);
                    },
                    Ok(_) => {},
                }
                chunks.push(chunk);
                i += 1;
            }
            let buf = join_sectors(&chunks, logical);
            self.cache.insert(sector, CacheEntry { data: buf, dirty: false });
            assert(self.sectors() =~= old(self).sectors().insert(sector, self.sectors()[sector]));
        } else {
            assert(self.sectors().contains_key(sector));
        }
        Ok(())
    }

    /// Returns the bytes of the logical sector `sector`, reading the sector
    /// from the device if the cache does not hold it yet.
    ///
    /// A sector that the cache holds is answered from the cache, without a
    /// word to the device, and so always succeeds. Otherwise the device
    /// decides: on success the cache holds the sector from now on, on
    /// failure the cache is as it was. Entries that were there stay as
    /// they were in either case.
    pub fn get(&mut self, sector: u64) -> (r: Result<&[u8], std::io::Error>)
        requires
            old(self).wf(),
            old(self).addressable(sector),
        ensures
            final(self).wf(),
            final(self).spec_partition() == old(self).spec_partition(),
            final(self).device_sector_size() == old(self).device_sector_size(),
            old(self).sectors().contains_key(sector) ==> r is Ok && final(self).sectors() == old(
                self).sectors(),
            r is Err ==> final(self).sectors() == old(self).sectors(),
            r matches Ok(data) ==> final(self).sectors() == old(self).sectors().insert(sector, data@)
                && data@.len() == old(self).spec_partition().sector_size,
    {
        match self.ensure_cache(sector) {
            Err(e) => Err(e),
            Ok(()) => {
                assert(self.sectors().contains_key(sector));
                Ok(self.cache.get(&sector).unwrap().data.as_slice())
            },
        }
    }

    /// Returns the bytes of the logical sector `sector` for writing,
    /// reading the sector from the device if the cache does not hold it yet.
    ///
    /// What is written through the reference is what the cache holds for
    /// the sector from then on; nothing is written to the device. On failure
    /// the cache is as it was.
    pub fn get_mut(&mut self, sector: u64) -> (r: Result<&mut [u8], std::io::Error>)
        requires
            old(self).wf(),
            old(self).addressable(sector),
        ensures
            final(self).wf(),
            final(self).spec_partition() == old(self).spec_partition(),
            final(self).device_sector_size() == old(self).device_sector_size(),
            old(self).sectors().contains_key(sector) ==> r is Ok,
            r is Err ==> final(self).sectors() == old(self).sectors(),
            r matches Ok(data) ==> data@.len() == old(self).spec_partition().sector_size,
            r matches Ok(data) ==> (old(self).sectors().contains_key(sector) ==> data@ == old(
                self).sectors()[sector]),
            r matches Ok(data) ==> final(self).sectors() =~= old(self).sectors().insert(
                sector,
                final(data)@,
            ),
    {
        match self.ensure_cache(sector) {
            Err(e) => Err(e),
            Ok(()) => {
                assert(self.sectors().contains_key(sector));
                Ok(cached_bytes_mut(&mut self.cache, sector))
            },
        }
    }

    /// The size of a logical sector in bytes.
    pub fn sector_size(&self) -> (n: u64)
        ensures
            n == self.spec_partition().sector_size,
    {
        self.partition.sector_size
    }

    /// Copies the logical sector `n` into `buf`: the whole sector, or as
    /// much of it as `buf` holds. Returns the number of bytes copied. The
    /// rest of `buf` stays as it was.
    pub fn read_sector(&mut self, n: u64, buf: &mut [u8]) -> (r: Result<usize, std::io::Error>)
        requires
            old(self).wf(),
            old(self).addressable(n),
        ensures
            final(self).wf(),
            final(self).spec_partition() == old(self).spec_partition(),
            final(self).device_sector_size() == old(self).device_sector_size(),
            final(buf)@.len() == old(buf)@.len(),
            old(self).sectors().contains_key(n) ==> r is Ok && final(self).sectors() == old(
                self).sectors(),
            r is Err ==> final(self).sectors() == old(self).sectors() && final(buf)@ == old(buf)@,
            r matches Ok(len) ==> {
                &&& final(self).sectors().contains_key(n)
                &&& final(self).sectors() == old(self).sectors().insert(n, final(self).sectors()[n])
                &&& len == vstd::math::min(
                    old(buf)@.len() as int,
                    old(self).spec_partition().sector_size as int,
                )
                &&& final(buf)@ == final(self).sectors()[n].subrange(0, len as int) + old(
                    buf)@.subrange(len as int, old(buf)@.len() as int)
            },
    {
        let size: usize = self.partition.sector_size as usize;
        let len: usize = if buf.len() < size {
            buf.len()
        } else {
            size
        };
        let sector = self.get(n)?;
        copy_into(buf, 0, sector, 0, len);
        assert(buf@ =~= sector@.subrange(0, len as int) + old(buf)@.subrange(
            len as int,
            old(buf)@.len() as int,
        ));
        Ok(len)
    }

    /// Writing is not supported: the volume is read-only. Nothing changes.
    pub fn write_sector(&mut self, n: u64, buf: &[u8]) -> (r: Result<usize, Error>)
        ensures
            r matches Err(Error::Unsupported),
            *final(self) == *old(self),
    {
        Err(Error::Unsupported)
    }
}

} // verus!
