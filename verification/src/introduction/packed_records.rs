//! A small record whose fields pack into 37 bits.

use vstd::prelude::*;

verus! {

/// A person's record: weight, height and date of birth.
pub struct Record {
    pub weight: u8,
    pub height: u8,
    pub day: u8,
    pub month: u8,
    pub year: u16,
}

impl Record {
    /// A record with the given fields.
    pub fn new(weight: u8, height: u8, day: u8, month: u8, year: u16) -> (r: Self)
        ensures
            r.weight == weight,
            r.height == height,
            r.day == day,
            r.month == month,
            r.year == year,
    {
        Self { weight, height, day, month, year }
    }
}

} // verus!
