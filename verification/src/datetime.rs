//! Calendar timestamps as plain fields.
//!
//! A capture time is carried as its civil fields (year, month, day and a
//! time of day). The storage layer encodes these fields into a file path and
//! parses them back; nothing here depends on a particular calendar library.

use vstd::prelude::*;

verus! {

/// A capture timestamp, split into civil fields.
#[derive(Clone, Copy, PartialEq, Eq, Structural, Debug)]
pub struct DateTime {
    pub year: u32,
    pub month: u32,
    pub day: u32,
    pub hour: u32,
    pub minute: u32,
    pub second: u32,
}

impl DateTime {
    /// The field ranges that a storage path can carry: a calendar date with
    /// a time of day. Day counts per month are the filesystem's concern no
    /// more than the calendar's; the path scheme only needs the bounds.
    pub open spec fn valid(&self) -> bool {
        &&& 1 <= self.month <= 12
        &&& 1 <= self.day <= 31
        &&& self.hour < 24
        &&& self.minute < 60
        &&& self.second < 60
    }

    /// Runtime check of the same field ranges.
    pub fn check_valid(&self) -> (r: bool)
        ensures
            r == self.valid(),
    {
        1 <= self.month && self.month <= 12 && 1 <= self.day && self.day <= 31
            && self.hour < 24 && self.minute < 60 && self.second < 60
    }
}

} // verus!
