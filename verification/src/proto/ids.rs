//! The identifiers that travel on the wire.

use vstd::prelude::*;

use crate::text;

verus! {

/// One enrolled key.
#[derive(Debug, Clone, Copy, PartialEq, Eq, Hash, PartialOrd, Ord, Structural)]
pub struct UserId(pub u64);

/// One room.
#[derive(Debug, Clone, Copy, PartialEq, Eq, Hash, PartialOrd, Ord, Structural)]
pub struct RoomId(pub u64);

/// One media track.
#[derive(Debug, Clone, Copy, PartialEq, Eq, Hash, PartialOrd, Ord, Structural)]
pub struct MediaId(pub u32);

/// A room's membership generation.
#[derive(Debug, Clone, Copy, PartialEq, Eq, Hash, PartialOrd, Ord, Structural)]
pub struct Epoch(pub u32);

impl UserId {
    /// The identifier in decimal.
    pub fn to_string(&self) -> (shown: String)
        ensures
            shown@ == text::decimal(self.0 as nat),
    {
        text::decimal_string(self.0)
    }
}

impl RoomId {
    /// The identifier in decimal.
    pub fn to_string(&self) -> (shown: String)
        ensures
            shown@ == text::decimal(self.0 as nat),
    {
        text::decimal_string(self.0)
    }
}

impl MediaId {
    /// The identifier in decimal.
    pub fn to_string(&self) -> (shown: String)
        ensures
            shown@ == text::decimal(self.0 as nat),
    {
        text::decimal_string(self.0 as u64)
    }
}

impl Epoch {
    /// The generation in decimal.
    pub fn to_string(&self) -> (shown: String)
        ensures
            shown@ == text::decimal(self.0 as nat),
    {
        text::decimal_string(self.0 as u64)
    }
}

} // verus!
