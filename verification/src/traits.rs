use vstd::prelude::*;

verus! {

/// `std::io::Error`, carried through unread: the library hands on the error
/// that a block device reports and never looks inside it.
#[verifier::external_type_specification]
#[verifier::external_body]
pub struct ExIoError(std::io::Error);

/// A device that is read and written one fixed-size sector at a time.
///
/// The host implements this trait. The library relies on one thing only:
/// that the sector size of a device never changes. Nothing is assumed about
/// the bytes a read delivers nor about whether it succeeds.
pub trait BlockDevice {
    /// The size of one sector in bytes; 512 unless the device says otherwise.
    open spec fn spec_sector_size(&self) -> u64 {
        512u64
    }

    /// The size of one sector in bytes, constant for the device.
    fn sector_size(&self) -> (n: u64)
        ensures
            n == self.spec_sector_size(),
    ;

    /// Reads sector `n` into `buf`: up to one sector, or as much as `buf`
    /// holds. Returns the number of bytes read.
    fn read_sector(&mut self, n: u64, buf: &mut [u8]) -> (r: Result<usize, std::io::Error>)
        ensures
            final(self).spec_sector_size() == old(self).spec_sector_size(),
    ;

    /// Overwrites sector `n` with the contents of `buf`. Returns the number
    /// of bytes written.
    fn write_sector(&mut self, n: u64, buf: &[u8]) -> (r: Result<usize, std::io::Error>)
        ensures
            final(self).spec_sector_size() == old(self).spec_sector_size(),
    ;
}

} // verus!
