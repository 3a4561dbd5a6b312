//! The ways in which reading a source can fail.

use vstd::prelude::*;
use vstd::string::StringExecFns;

verus! {

/// Why a source gave no result.
#[derive(Clone, Copy, Debug, PartialEq, Eq, Structural)]
pub enum KittiError {
    /// The source cannot be read.
    Io,
    /// The source is of the wrong kind: its name does not end as a text
    /// file's does.
    Format,
    /// A word that must denote a number denotes none, or a line has too few
    /// words.
    Parse,
    /// A key that the calibration needs is absent.
    InvalidCalibration,
}

impl KittiError {
    /// A sentence for `self`.
    pub open spec fn message_of(self) -> Seq<char> {
        match self {
            KittiError::Io => "the source cannot be read"@,
            KittiError::Format => "the source is not a text file"@,
            KittiError::Parse => "a line of the source is malformed"@,
            KittiError::InvalidCalibration => "a required key is missing from the calibration"@,
        }
    }

    /// A sentence that says what went wrong.
    pub fn message(&self) -> (r: String)
        ensures
            r@ == self.message_of(),
    {
        match self {
            KittiError::Io => String::from_str("the source cannot be read"),
            KittiError::Format => String::from_str("the source is not a text file"),
            KittiError::Parse => String::from_str("a line of the source is malformed"),
            KittiError::InvalidCalibration => String::from_str(
                "a required key is missing from the calibration",
            ),
        }
    }
}

} // verus!
