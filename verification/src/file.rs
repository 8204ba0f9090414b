use vstd::prelude::*;
use crate::cluster::Cluster;
use crate::error::{Error, ErrorKind};
use crate::metadata::Metadata;
use crate::model::read_at;
use crate::traits::BlockDevice;
use crate::vfat::{VFat, VFatExt};

verus! {

/// A file of the volume, open for reading.
#[derive(Debug)]
pub struct File {
    /// The first cluster of the file's chain.
    pub cluster: Cluster,
    pub name: String,
    pub metadata: Metadata,
    /// The size of the file in bytes, as its directory entry states it.
    pub size: u64,
    /// The position of the next read, counted from the start of the file.
    pub offset: u64,
}

/// What a file is, as plain values.
pub struct FileView {
    pub cluster: Cluster,
    pub name: Seq<char>,
    pub metadata: Metadata,
    pub size: u64,
    pub offset: u64,
}

impl View for File {
    type V = FileView;

    open spec fn view(&self) -> FileView {
        FileView {
            cluster: self.cluster,
            name: self.name@,
            metadata: self.metadata,
            size: self.size,
            offset: self.offset,
        }
    }
}

/// A position to seek to: counted from the start of the file, from its
/// end, or from the current position.
#[derive(PartialEq, Eq, Structural, Debug, Copy, Clone)]
pub enum SeekFrom {
    Start(u64),
    End(i64),
    Current(i64),
}

/// The position that a seek asks for in a file of `size` bytes that is at
/// position `offset`. A position from the end is counted from the last
/// byte of the file: `End(0)` is `size - 1`.
pub open spec fn seek_target(size: u64, offset: u64, pos: SeekFrom) -> int {
    match pos {
        SeekFrom::Start(p) => p as int,
        SeekFrom::Current(p) => offset + p,
        SeekFrom::End(p) => size - 1 + p,
    }
}

/// Seeking to the end of a file succeeds and seeking one byte behind it
/// does not: the positions from 0 up to and with the size of the file are
/// the ones a seek accepts.
pub proof fn lemma_seek_bounds(size: u64, offset: u64)
    requires
        size < u64::MAX,
    ensures
        0 <= seek_target(size, offset, SeekFrom::Start(size)) <= size,
        !(0 <= seek_target(size, offset, SeekFrom::Start((size + 1) as u64)) <= size),
{
}

impl File {
    /// The invariant of an open file: a position within the file, and a
    /// size that a directory entry can state.
    pub open spec fn wf(&self) -> bool {
        self.offset <= self.size <= u32::MAX
    }

    /// Moves to position `pos` if it lies within the file.
    fn set_offset(&mut self, pos: u64) -> (r: Result<u64, Error>)
        ensures
            pos <= old(self).size ==> r == Ok::<u64, Error>(pos) && final(self).offset == pos,
            pos > old(self).size ==> (r matches Err(Error::InvalidInput)) && final(self).offset == old(
                self).offset,
            final(self).cluster == old(self).cluster,
            final(self).name == old(self).name,
            final(self).metadata == old(self).metadata,
            final(self).size == old(self).size,
    {
        if pos > self.size {
            Err(Error::InvalidInput)
        } else {
            self.offset = pos;
            Ok(self.offset)
        }
    }

    /// The size of the file in bytes.
    pub fn size(&self) -> (n: u64)
        ensures
            n == self.size,
    {
        self.size
    }

    /// Seeks to the position `pos` and returns it, counted from the start
    /// of the file.
    ///
    /// Every position from 0 up to and with the size of the file is
    /// accepted. Any other is `InvalidInput`, and the file stays where it
    /// was.
    pub fn seek(&mut self, pos: SeekFrom) -> (r: Result<u64, Error>)
        ensures
            ({
                let target = seek_target(old(self).size, old(self).offset, pos);
                if 0 <= target <= old(self).size {
                    r == Ok::<u64, Error>(target as u64) && final(self).offset == target
                } else {
                    (r matches Err(Error::InvalidInput)) && final(self).offset == old(self).offset
                }
            }),
            final(self).cluster == old(self).cluster,
            final(self).name == old(self).name,
            final(self).metadata == old(self).metadata,
            final(self).size == old(self).size,
    {
        let target: i128 = match pos {
            SeekFrom::Start(p) => p as i128,
            SeekFrom::Current(p) => self.offset as i128 + p as i128,
            SeekFrom::End(p) => self.size as i128 - 1 + p as i128,
        };
        if target < 0 || target > self.size as i128 {
            Err(Error::InvalidInput)
        } else {
            self.set_offset(target as u64)
        }
    }

    /// Reads from the file into `buf`, from the current position on, and
    /// moves the position behind what was read. Returns the number of bytes
    /// read.
    ///
    /// At most as many bytes are asked for as the file has left, so a read
    /// at the end of the file gives 0 bytes. What is read is what
    /// [`read_at`] says of the file's chain. On failure the position stays
    /// where it was.
    pub fn read<D: BlockDevice>(&mut self, drive: &mut VFat<D>, buf: &mut [u8]) -> (r: Result<
        usize,
        Error,
    >)
        requires
            old(self).wf(),
            old(drive).wf(),
        ensures
            final(self).wf(),
            final(drive).wf(),
            final(drive).spec_geometry() == old(drive).spec_geometry(),
            old(drive).disk().submap_of(final(drive).disk()),
            final(buf)@.len() == old(buf)@.len(),
            final(self).cluster == old(self).cluster,
            final(self).name == old(self).name,
            final(self).metadata == old(self).metadata,
            final(self).size == old(self).size,
            ({
                let geo = old(drive).spec_geometry();
                let max_len = vstd::math::min(
                    old(self).size - old(self).offset,
                    old(buf)@.len() as int,
                ) as nat;
                let skip = (old(self).offset as int / geo.bytes_per_cluster()) as nat;
                let within = (old(self).offset as int % geo.bytes_per_cluster()) as nat;
                &&& match r {
                    Ok(n) => {
                        &&& n <= max_len
                        &&& final(self).offset == old(self).offset + n
                        &&& read_at(geo, final(drive).disk(), old(self).cluster, skip, within, max_len)
                            == Ok::<Seq<u8>, ErrorKind>(final(buf)@.subrange(0, n as int))
                        &&& final(buf)@.subrange(n as int, old(buf)@.len() as int) == old(
                            buf)@.subrange(n as int, old(buf)@.len() as int)
                    },
                    Err(e) => {
                        &&& final(self).offset == old(self).offset
                        &&& read_at(geo, final(drive).disk(), old(self).cluster, skip, within, max_len)
                            == Err::<Seq<u8>, ErrorKind>(e.spec_kind())
                    },
                }
                &&& read_at(geo, old(drive).disk(), old(self).cluster, skip, within, max_len) != Err::<
                    Seq<u8>,
                    ErrorKind,
                >(ErrorKind::Io) ==> final(drive).disk() == old(drive).disk()
            }),
    {
        let left: u64 = self.size - self.offset;
        let max_len: usize = if left < buf.len() as u64 {
            left as usize
        } else {
            buf.len()
        };
        let (head, tail) = buf.split_at_mut(max_len);
        let ghost head_before = head@;
        let ghost tail_before = tail@;
        let result = drive.read_cluster(self.cluster, self.offset as usize, head);
        let ghost head_after = head@;
        let read_bytes: usize = match result {
            Err(e) => {
                return Err(e);
            },
            Ok(n) => n,
        };
        proof {
            let n = read_bytes as int;
            assert(buf@ == head_after + tail_before);
            assert(buf@.subrange(0, n) =~= head_after.subrange(0, n));
            assert(buf@.subrange(n, buf@.len() as int) =~= head_after.subrange(n, max_len as int)
                + tail_before);
            assert(old(buf)@.subrange(n, buf@.len() as int) =~= head_before.subrange(
                n,
                max_len as int,
            ) + tail_before);
        }
        self.offset = self.offset + read_bytes as u64;
        Ok(read_bytes)
    }

    /// Writing is not supported: the volume is read-only.
    pub fn write(&mut self, buf: &[u8]) -> (r: Result<usize, Error>)
        ensures
            r matches Err(Error::Unsupported),
            *final(self) == *old(self),
    {
        Err(Error::Unsupported)
    }

    /// Flushing is not supported: the volume is read-only.
    pub fn flush(&mut self) -> (r: Result<(), Error>)
        ensures
            r matches Err(Error::Unsupported),
            *final(self) == *old(self),
    {
        Err(Error::Unsupported)
    }

    /// Syncing is not supported: the volume is read-only.
    pub fn sync(&mut self) -> (r: Result<(), Error>)
        ensures
            r matches Err(Error::Unsupported),
            *final(self) == *old(self),
    {
        Err(Error::Unsupported)
    }
}

} // verus!
