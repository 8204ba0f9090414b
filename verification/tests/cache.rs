// Tests of the sector cache over a device with smaller sectors.

use fat32::cache::{join_sectors, CachedDevice, Partition};
use fat32::error::Error;
use fat32::traits::BlockDevice;
use std::cell::RefCell;
use std::io;
use std::rc::Rc;

/// A device of 512-byte sectors; every byte of sector `n` is `n`. It keeps
/// the numbers of the sectors that were asked for.
struct Numbered {
    asked: Rc<RefCell<Vec<u64>>>,
    sectors: u64,
}

impl BlockDevice for Numbered {
    fn sector_size(&self) -> u64 {
        512
    }

    fn read_sector(&mut self, n: u64, buf: &mut [u8]) -> io::Result<usize> {
        self.asked.borrow_mut().push(n);
        if n >= self.sectors {
            return Err(io::Error::new(io::ErrorKind::UnexpectedEof, "beyond the device"));
        }
        let len = buf.len().min(512);
        for b in buf[..len].iter_mut() {
            *b = n as u8;
        }
        Ok(len)
    }

    fn write_sector(&mut self, _n: u64, _buf: &[u8]) -> io::Result<usize> {
        Err(io::Error::new(io::ErrorKind::Other, "read-only"))
    }
}

fn cache(logical: u64) -> (CachedDevice<Numbered>, Rc<RefCell<Vec<u64>>>) {
    let asked = Rc::new(RefCell::new(Vec::new()));
    let device = Numbered { asked: asked.clone(), sectors: 100 };
    (CachedDevice::new(device, Partition { start: 4, sector_size: logical }), asked)
}

#[test]
fn equal_sector_sizes_map_one_to_one() {
    let (c, _) = cache(512);
    assert_eq!(c.virtual_to_physical(0), (0, 1));
    assert_eq!(c.virtual_to_physical(4), (4, 1));
    assert_eq!(c.virtual_to_physical(9), (9, 1));
    assert_eq!(c.sector_size(), 512);
}

#[test]
fn sectors_before_the_partition_are_physical() {
    let (c, _) = cache(2048);
    assert_eq!(c.virtual_to_physical(0), (0, 1));
    assert_eq!(c.virtual_to_physical(3), (3, 1));
}

#[test]
fn sectors_in_the_partition_cover_several_physical_sectors() {
    let (c, _) = cache(2048);
    assert_eq!(c.virtual_to_physical(4), (4, 4));
    assert_eq!(c.virtual_to_physical(5), (8, 4));
    assert_eq!(c.virtual_to_physical(10), (28, 4));
    assert_eq!(c.sector_size(), 2048);
}

#[test]
fn logical_sector_is_read_from_consecutive_physical_sectors() {
    let (mut c, asked) = cache(1024);
    let s = c.get(5).unwrap().to_vec();
    assert_eq!(s.len(), 1024);
    assert!(s[..512].iter().all(|b| *b == 6));
    assert!(s[512..].iter().all(|b| *b == 7));
    assert_eq!(*asked.borrow(), vec![6, 7]);
}

#[test]
fn sector_before_the_partition_is_padded_with_zeros() {
    let (mut c, asked) = cache(1024);
    let s = c.get(2).unwrap().to_vec();
    assert_eq!(s.len(), 1024);
    assert!(s[..512].iter().all(|b| *b == 2));
    assert!(s[512..].iter().all(|b| *b == 0));
    assert_eq!(*asked.borrow(), vec![2]);
}

#[test]
fn cached_sector_is_read_only_once() {
    let (mut c, asked) = cache(512);
    assert_eq!(c.get(7).unwrap()[0], 7);
    assert_eq!(c.get(7).unwrap()[511], 7);
    assert_eq!(c.get(8).unwrap()[0], 8);
    assert_eq!(c.get(7).unwrap()[0], 7);
    assert_eq!(*asked.borrow(), vec![7, 8]);
}

#[test]
fn failed_read_leaves_nothing_in_the_cache() {
    let (mut c, asked) = cache(1024);
    // logical sector 51 covers the physical sectors 98 and 99, 52 covers 100 and 101
    assert!(c.get(51).is_ok());
    assert!(c.get(52).is_err());
    assert!(c.get(52).is_err());
    assert_eq!(*asked.borrow(), vec![98, 99, 100, 100]);
}

#[test]
fn read_sector_copies_what_fits() {
    let (mut c, _) = cache(1024);
    let mut small = [0xEEu8; 10];
    assert_eq!(c.read_sector(5, &mut small).unwrap(), 10);
    assert_eq!(small, [6u8; 10]);
    let mut large = vec![0xEEu8; 1500];
    assert_eq!(c.read_sector(5, &mut large).unwrap(), 1024);
    assert!(large[..512].iter().all(|b| *b == 6));
    assert!(large[512..1024].iter().all(|b| *b == 7));
    assert!(large[1024..].iter().all(|b| *b == 0xEE));
    let mut untouched = [0xEEu8; 4];
    assert!(c.read_sector(60, &mut untouched).is_err());
    assert_eq!(untouched, [0xEE; 4]);
}

#[test]
fn get_mut_changes_the_cached_sector_only() {
    let (mut c, asked) = cache(512);
    {
        let s = c.get_mut(9).unwrap();
        assert_eq!(s.len(), 512);
        assert_eq!(s[0], 9);
        s[0] = 0x77;
    }
    assert_eq!(c.get(9).unwrap()[0], 0x77);
    assert_eq!(c.get(9).unwrap()[1], 9);
    assert_eq!(*asked.borrow(), vec![9]);
    assert!(c.get_mut(200).is_err());
}

#[test]
fn write_sector_is_unsupported() {
    let (mut c, asked) = cache(512);
    assert!(matches!(c.write_sector(1, &[0u8; 512]), Err(Error::Unsupported)));
    assert!(asked.borrow().is_empty());
}

#[test]
fn physical_sectors_are_joined_in_order() {
    let chunks = vec![vec![1u8, 2], vec![3u8, 4], vec![5u8, 6]];
    assert_eq!(join_sectors(&chunks, 6), vec![1, 2, 3, 4, 5, 6]);
}

#[test]
fn short_logical_sector_is_filled_with_zeros() {
    let chunks = vec![vec![7u8, 8, 9]];
    assert_eq!(join_sectors(&chunks, 8), vec![7, 8, 9, 0, 0, 0, 0, 0]);
    assert_eq!(join_sectors(&Vec::new(), 3), vec![0, 0, 0]);
    assert_eq!(join_sectors(&vec![Vec::new(), vec![1u8]], 2), vec![1, 0]);
}

#[test]
fn joined_sector_never_exceeds_the_logical_size() {
    let chunks = vec![vec![1u8, 2, 3], vec![4u8, 5, 6]];
    assert_eq!(join_sectors(&chunks, 4), vec![1, 2, 3, 4]);
    assert_eq!(join_sectors(&chunks, 0), Vec::<u8>::new());
}
