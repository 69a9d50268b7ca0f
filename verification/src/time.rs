//! Calendar timestamps recovered from transcript paths.
use vstd::prelude::*;

verus! {

/// A recording timestamp: a calendar date plus a time of day, second
/// precision. Recovered from a transcript path's directory and file-name
/// structure; compared to decide which session is more recent.
#[derive(PartialEq, Eq, Structural, Clone, Copy, Debug)]
pub struct Timestamp {
    pub year: u16,
    pub month: u8,
    pub day: u8,
    pub hour: u8,
    pub minute: u8,
    pub second: u8,
}

pub open spec fn leap_year(y: int) -> bool {
    (y % 4 == 0 && y % 100 != 0) || y % 400 == 0
}

pub open spec fn days_in_month(y: int, m: int) -> int {
    if m == 2 {
        if leap_year(y) {
            29
        } else {
            28
        }
    } else if m == 4 || m == 6 || m == 9 || m == 11 {
        30
    } else {
        31
    }
}

impl Timestamp {
    /// A genuine calendar date and time of day, as the fixed
    /// `YYYY-MM-DDTHH-MM-SS` pattern accepts it.
    pub open spec fn valid(self) -> bool {
        self.year <= 9999 && 1 <= self.month <= 12 && 1 <= self.day <= days_in_month(
            self.year as int,
            self.month as int,
        ) && self.hour < 24 && self.minute < 60 && self.second < 60
    }

    /// Mixed-radix encoding of the fields; for valid timestamps its order is
    /// chronological order.
    pub open spec fn key(self) -> int {
        ((((self.year as int * 16 + self.month) * 32 + self.day) * 32 + self.hour) * 64
            + self.minute) * 64 + self.second
    }

    /// Chronological comparison: `self` is no later than `other`.
    pub open spec fn spec_le(self, other: Timestamp) -> bool {
        self.key() <= other.key()
    }

    pub fn le(&self, other: &Timestamp) -> (r: bool)
        ensures
            r == self.spec_le(*other),
    {
        let a: u64 = ((((self.year as u64 * 16 + self.month as u64) * 32 + self.day as u64) * 32
            + self.hour as u64) * 64 + self.minute as u64) * 64 + self.second as u64;
        let b: u64 = ((((other.year as u64 * 16 + other.month as u64) * 32 + other.day as u64) * 32
            + other.hour as u64) * 64 + other.minute as u64) * 64 + other.second as u64;
        a <= b
    }

    pub fn check_valid(&self) -> (r: bool)
        ensures
            r == self.valid(),
    {
        let y = self.year as u32;
        let m = self.month as u32;
        let leap: bool = (y % 4 == 0 && y % 100 != 0) || y % 400 == 0;
        let dim: u32 = if m == 2 {
            if leap {
                29
            } else {
                28
            }
        } else if m == 4 || m == 6 || m == 9 || m == 11 {
            30
        } else {
            31
        };
        self.year <= 9999 && 1 <= self.month && self.month <= 12 && 1 <= self.day && self.day
            as u32 <= dim && self.hour < 24 && self.minute < 60 && self.second < 60
    }
}

} // verus!
