//! What can be wrong with a call.

use vstd::prelude::*;

verus! {

/// Why a call cannot be carried out.
#[derive(Clone, Copy, Debug, PartialEq, Eq, Structural)]
pub enum NavPathError {
    /// Start and end lie on different z-levels.
    DifferentZLevels,
    /// An argument has no position.
    NotATurf,
    /// A flat list does not divide into records.
    InvalidBulkUpdateLength,
}

impl NavPathError {
    /// The text shown for an error.
    pub fn message(&self) -> (text: &'static str)
        ensures
            text@ == (match self {
                NavPathError::DifferentZLevels => "start and end turfs are on different z-levels"@,
                NavPathError::NotATurf => "argument was not a turf"@,
                NavPathError::InvalidBulkUpdateLength =>
                    "navmap bulk update list length must be a multiple of 4"@,
            }),
    {
        match self {
            NavPathError::DifferentZLevels => "start and end turfs are on different z-levels",
            NavPathError::NotATurf => "argument was not a turf",
            NavPathError::InvalidBulkUpdateLength =>
                "navmap bulk update list length must be a multiple of 4",
        }
    }
}

/// Counts the records of a flat list, which has to divide into records of the given width.
pub fn record_count(length: usize, width: usize) -> (count: Result<usize, NavPathError>)
    requires
        width > 0,
    ensures
        match count {
            Ok(n) => length % width == 0 && n == length / width,
            Err(e) => length % width != 0 && e == NavPathError::InvalidBulkUpdateLength,
        },
{
    if length % width != 0 {
        Err(NavPathError::InvalidBulkUpdateLength)
    } else {
        Ok(length / width)
    }
}

} // verus!
