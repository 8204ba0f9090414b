use vstd::prelude::*;
use crate::error::{Error, ErrorKind};
use crate::model::chain_step;
use crate::fat::Status;
use crate::traits::BlockDevice;
use crate::vfat::VFat;

verus! {

/// A 28-bit cluster number. The four high bits of the raw 32-bit value are
/// reserved and are cleared on construction.
#[derive(PartialEq, Eq, PartialOrd, Ord, Structural, Debug, Copy, Clone, Hash)]
pub struct Cluster(pub u32);

/// The cluster number that a raw 32-bit value denotes: its low 28 bits.
pub open spec fn cluster_bits(raw: u32) -> u32 {
    raw & 0x0FFF_FFFFu32
}

impl Cluster {
    /// Builds a cluster from a raw 32-bit value, dropping the reserved bits.
    pub fn from(raw_num: u32) -> (c: Cluster)
        ensures
            c.0 == cluster_bits(raw_num),
            c.0 < 0x1000_0000,
    {
        assert(raw_num & 0x0FFF_FFFFu32 < 0x1000_0000u32) by (bit_vector);
        Cluster(raw_num & 0x0FFF_FFFFu32)
    }

    /// The cluster number.
    pub fn get(&self) -> (n: u32)
        ensures
            n == self.0,
    {
        self.0
    }

    /// An iterator over the chain that starts at this cluster.
    pub fn iter(&self) -> (it: ClusterIter)
        ensures
            it == (ClusterIter { current: *self, eoc_occurred: false }),
    {
        ClusterIter::from(*self)
    }
}

/// A walk along a cluster chain, one cluster per step.
///
/// The walk is over once the end of the chain was reached or a step
/// failed: from then on every step yields `None`.
#[derive(PartialEq, Eq, Structural, Debug, Copy, Clone)]
pub struct ClusterIter {
    /// The cluster that the next step yields.
    pub current: Cluster,
    /// Whether the walk is over.
    pub eoc_occurred: bool,
}

impl ClusterIter {
    /// A walk that starts at `start`.
    pub fn from(start: Cluster) -> (it: ClusterIter)
        ensures
            it == (ClusterIter { current: start, eoc_occurred: false }),
    {
        ClusterIter { current: start, eoc_occurred: false }
    }

    /// Takes one step along the chain on `drive`.
    ///
    /// A walk that is over yields `None` and reads nothing. Otherwise the
    /// entry of the current cluster is looked up. If it names a next
    /// cluster, the current cluster is yielded and the walk moves on to the
    /// next. If it marks the end of the chain, the current cluster is
    /// yielded and the walk is over. If the lookup fails, or the entry is
    /// free, reserved or bad, the error is yielded and the walk is over.
    pub fn next<D: BlockDevice>(&mut self, drive: &mut VFat<D>) -> (r: Option<Result<Cluster, Error>>)
        requires
            old(drive).wf(),
        ensures
            final(drive).wf(),
            final(drive).spec_geometry() == old(drive).spec_geometry(),
            old(drive).disk().submap_of(final(drive).disk()),
            old(self).eoc_occurred ==> r is None && *final(self) == *old(self) && final(drive).disk()
                == old(drive).disk(),
            !old(self).eoc_occurred ==> (match chain_step(
                old(drive).spec_geometry(),
                final(drive).disk(),
                old(self).current,
            ) {
                Ok(Some(n)) => r matches Some(Ok(c)) && c == old(self).current && *final(self) == (
                ClusterIter { current: n, eoc_occurred: false }),
                Ok(None) => r matches Some(Ok(c)) && c == old(self).current && *final(self) == (
                ClusterIter { current: old(self).current, eoc_occurred: true }),
                Err(k) => r matches Some(Err(e)) && e.spec_kind() == k && *final(self) == (
                ClusterIter { current: old(self).current, eoc_occurred: true }),
            }),
            chain_step(old(drive).spec_geometry(), old(drive).disk(), old(self).current) != Err::<
                Option<Cluster>,
                ErrorKind,
            >(ErrorKind::Io) ==> final(drive).disk() == old(drive).disk(),
    {
        if self.eoc_occurred {
            return None;
        }
        match drive.fat_entry(self.current) {
            Err(e) => {
                self.eoc_occurred = true;
                Some(Err(e))
            },
            Ok(entry) => match entry.status() {
                Status::Data(next) => {
                    let current = self.current;
                    self.current = next;
                    Some(Ok(current))
                },
                Status::Eoc(_) => {
                    self.eoc_occurred = true;
                    Some(Ok(self.current))
                },
                _ => {
                    self.eoc_occurred = true;
                    Some(Err(Error::InvalidData))
                },
            },
        }
    }
}

} // verus!
