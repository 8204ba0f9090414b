use vstd::prelude::*;

verus! {

/// A date as FAT32 stores it: `(year - 1980) << 9 | month << 5 | day`.
#[derive(PartialEq, Eq, Structural, Debug, Copy, Clone)]
pub struct Date(pub u16);

impl Date {
    /// The date whose packed value is zero.
    pub fn empty() -> (d: Date)
        ensures
            d.0 == 0,
    {
        Date(0)
    }
}

impl Default for Date {
    fn default() -> (d: Date)
        ensures
            d.0 == 0,
    {
        Date(0)
    }
}

/// A time of day as FAT32 stores it: `hour << 11 | minute << 5 | second / 2`.
#[derive(PartialEq, Eq, Structural, Debug, Copy, Clone)]
pub struct Time(pub u16);

impl Time {
    /// The time whose packed value is zero.
    pub fn empty() -> (t: Time)
        ensures
            t.0 == 0,
    {
        Time(0)
    }
}

impl Default for Time {
    fn default() -> (t: Time)
        ensures
            t.0 == 0,
    {
        Time(0)
    }
}

/// The attribute byte of a directory entry.
#[derive(PartialEq, Eq, Structural, Debug, Copy, Clone)]
pub struct Attributes(pub u8);

impl Attributes {
    pub const READ_ONLY: u8 = 0x01;

    pub const HIDDEN: u8 = 0x02;

    pub const SYSTEM: u8 = 0x04;

    pub const VOLUME_ID: u8 = 0x08;

    pub const DIRECTORY: u8 = 0x10;

    pub const ARCHIVE: u8 = 0x20;

    /// The value that marks a long-file-name entry: an exact value, not a mask.
    pub const LFN: u8 = 0x0F;

    /// Whether any bit of `flag` is set in these attributes.
    pub fn has_flag(&self, flag: u8) -> (b: bool)
        ensures
            b == (self.0 & flag != 0),
    {
        self.0 & flag != 0
    }

    /// Whether the attribute byte is exactly `flag`.
    pub fn equal_to(&self, flag: u8) -> (b: bool)
        ensures
            b == (self.0 == flag),
    {
        self.0 == flag
    }
}

impl Default for Attributes {
    fn default() -> (a: Attributes)
        ensures
            a.0 == 0,
    {
        Attributes(0)
    }
}

/// A date together with a time of day.
#[derive(PartialEq, Eq, Structural, Debug, Copy, Clone)]
pub struct Timestamp {
    pub date: Date,
    pub time: Time,
}

impl Timestamp {
    /// The timestamp whose date and time are both zero.
    pub fn empty() -> (t: Timestamp)
        ensures
            t == (Timestamp { date: Date(0), time: Time(0) }),
    {
        Timestamp { date: Date::empty(), time: Time::empty() }
    }

    /// The calendar year: the seven high bits of the date, counted from 1980.
    pub open spec fn spec_year(&self) -> int {
        self.date.0 as int / 512 + 1980
    }

    /// The month: bits 5 to 8 of the date.
    pub open spec fn spec_month(&self) -> int {
        (self.date.0 as int / 32) % 16
    }

    /// The day of the month: the five low bits of the date.
    pub open spec fn spec_day(&self) -> int {
        self.date.0 as int % 32
    }

    /// The hour: the five high bits of the time.
    pub open spec fn spec_hour(&self) -> int {
        self.time.0 as int / 2048
    }

    /// The minute: bits 5 to 10 of the time.
    pub open spec fn spec_minute(&self) -> int {
        (self.time.0 as int / 32) % 64
    }

    /// The second: twice the five low bits of the time.
    pub open spec fn spec_second(&self) -> int {
        (self.time.0 as int % 32) * 2
    }

    pub fn year(&self) -> (y: usize)
        ensures
            y == self.spec_year(),
            1980 <= y <= 2107,
    {
        let d: u16 = self.date.0;
        assert(d >> 9 == d / 512 && d >> 9 < 128) by (bit_vector);
        (d >> 9) as usize + 1980
    }

    pub fn month(&self) -> (m: u8)
        ensures
            m == self.spec_month(),
            m < 16,
    {
        let d: u16 = self.date.0;
        assert((d & 0b0000_0001_1110_0000) >> 5 == (d / 32) % 16) by (bit_vector);
        ((d & 0b0000_0001_1110_0000) >> 5) as u8
    }

    pub fn day(&self) -> (d: u8)
        ensures
            d == self.spec_day(),
            d < 32,
    {
        let v: u16 = self.date.0;
        assert(v & 0b0000_0000_0001_1111 == v % 32) by (bit_vector);
        (v & 0b0000_0000_0001_1111) as u8
    }

    pub fn hour(&self) -> (h: u8)
        ensures
            h == self.spec_hour(),
            h < 32,
    {
        let t: u16 = self.time.0;
        assert(t >> 11 == t / 2048 && t >> 11 < 32) by (bit_vector);
        (t >> 11) as u8
    }

    pub fn minute(&self) -> (m: u8)
        ensures
            m == self.spec_minute(),
            m < 64,
    {
        let t: u16 = self.time.0;
        assert((t & 0b0000_0111_1110_0000) >> 5 == (t / 32) % 64) by (bit_vector);
        ((t & 0b0000_0111_1110_0000) >> 5) as u8
    }

    pub fn second(&self) -> (s: u8)
        ensures
            s == self.spec_second(),
            s <= 62,
    {
        let t: u16 = self.time.0;
        assert((t & 0b0000_0000_0001_1111) << 1 == (t % 32) * 2) by (bit_vector);
        ((t & 0b0000_0000_0001_1111) << 1) as u8
    }
}

impl Default for Timestamp {
    fn default() -> (t: Timestamp)
        ensures
            t == (Timestamp { date: Date(0), time: Time(0) }),
    {
        Timestamp { date: Date(0), time: Time(0) }
    }
}

/// The packed date of a calendar day.
pub open spec fn pack_date(year: int, month: int, day: int) -> int {
    (year - 1980) * 512 + month * 32 + day
}

/// The packed time of a time of day; seconds are stored halved.
pub open spec fn pack_time(hour: int, minute: int, second: int) -> int {
    hour * 2048 + minute * 32 + second / 2
}

/// Unpacking a packed date gives back the year, month and day it was made of,
/// and unpacking a packed time gives back the hour, the minute and the second
/// rounded down to an even number.
pub proof fn lemma_timestamp_unpacks(
    t: Timestamp,
    year: int,
    month: int,
    day: int,
    hour: int,
    minute: int,
    second: int,
)
    requires
        1980 <= year < 2108,
        0 <= month < 16,
        0 <= day < 32,
        0 <= hour < 32,
        0 <= minute < 64,
        0 <= second < 64,
        t.date.0 == pack_date(year, month, day),
        t.time.0 == pack_time(hour, minute, second),
    ensures
        t.spec_year() == year,
        t.spec_month() == month,
        t.spec_day() == day,
        t.spec_hour() == hour,
        t.spec_minute() == minute,
        t.spec_second() == second - second % 2,
{
}

/// What a directory entry records about a file or directory besides its
/// name and location.
#[derive(PartialEq, Eq, Structural, Debug, Copy, Clone)]
pub struct Metadata {
    pub is_read_only: bool,
    pub is_hidden: bool,
    pub created: Timestamp,
    pub last_accessed: Timestamp,
    pub last_modified: Timestamp,
}

impl Metadata {
    /// Whether the entry is marked read-only.
    pub fn read_only(&self) -> (b: bool)
        ensures
            b == self.is_read_only,
    {
        self.is_read_only
    }

    /// Whether the entry is marked hidden.
    pub fn hidden(&self) -> (b: bool)
        ensures
            b == self.is_hidden,
    {
        self.is_hidden
    }

    /// When the entry was created.
    pub fn created(&self) -> (t: Timestamp)
        ensures
            t == self.created,
    {
        self.created
    }

    /// When the entry was last accessed. FAT32 records the date only.
    pub fn accessed(&self) -> (t: Timestamp)
        ensures
            t == self.last_accessed,
    {
        self.last_accessed
    }

    /// When the entry was last modified.
    pub fn modified(&self) -> (t: Timestamp)
        ensures
            t == self.last_modified,
    {
        self.last_modified
    }
}

impl Default for Metadata {
    fn default() -> (m: Metadata)
        ensures
            m == (Metadata {
                is_read_only: false,
                is_hidden: false,
                created: Timestamp { date: Date(0), time: Time(0) },
                last_accessed: Timestamp { date: Date(0), time: Time(0) },
                last_modified: Timestamp { date: Date(0), time: Time(0) },
            }),
    {
        Metadata {
            is_read_only: false,
            is_hidden: false,
            created: Timestamp::empty(),
            last_accessed: Timestamp::empty(),
            last_modified: Timestamp::empty(),
        }
    }
}

} // verus!
