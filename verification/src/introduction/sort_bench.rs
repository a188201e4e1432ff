//! The same record in two layouts, one field per word and tightly sized, ordered field
//! by field.

use vstd::prelude::*;

verus! {

/// A record that spends a 64-bit word on every field.
#[derive(PartialEq, Eq, PartialOrd, Ord)]
pub struct LargeRecord {
    pub weight: u64,
    pub height: u64,
    pub day: u64,
    pub month: u64,
    pub year: u64,
}

impl LargeRecord {
    /// A record with the given fields.
    pub fn new(weight: u64, height: u64, day: u64, month: u64, year: u64) -> (r: Self)
        ensures
            r.weight == weight,
            r.height == height,
            r.day == day,
            r.month == month,
            r.year == year,
    {
        Self { weight, height, day, month, year }
    }
}

/// A record whose fields are as narrow as their values allow.
#[derive(PartialEq, Eq, PartialOrd, Ord)]
pub struct SmallRecord {
    pub weight: u8,
    pub height: u8,
    pub day: u8,
    pub month: u8,
    pub year: u16,
}

impl SmallRecord {
    /// A record with the given fields.
    pub fn new(weight: u8, height: u8, day: u8, month: u8, year: u16) -> (r: Self)
        ensures
            r.weight == weight,
            r.height == height,
            r.day == day,
            r.month == month,
            r.year == year,
    {
        Self { weight, height, day, month, year }
    }
}

} // verus!
