//! The corners of a box: how they are told apart before the box is turned,
//! and the integers that stand for their coordinates.
//!
//! The coordinates themselves are binary single-precision numbers, which are
//! not held here. Whatever is decided about corners is decided from how their
//! coordinates compare, and for that an integer can stand for each.

use vstd::prelude::*;

verus! {

/// The number of corners of a box.
pub const CORNERS: usize = 8;

/// A corner of a box. Each field is an integer that stands for a coordinate:
/// it is less than, equal to or greater than the field of another corner as
/// the coordinate is.
#[derive(Clone, Copy, Debug, PartialEq, Eq, Structural)]
pub struct Vertex {
    pub x: i64,
    pub y: i64,
    pub z: i64,
}

/// The integer that stands for the coordinate with the bit pattern `bits`,
/// the pattern of a binary single-precision number: the magnitude for a
/// clear sign bit, its negative for a set one.
///
/// So both zeros give 0, a lesser number gives a lesser integer, and the
/// patterns that stand for no number lie beyond the infinities.
pub open spec fn key_of(bits: u32) -> int {
    if bits >= 0x8000_0000 {
        0x8000_0000 - bits
    } else {
        bits as int
    }
}

/// The integer that stands for the coordinate with the bit pattern `bits`.
pub fn coordinate_key(bits: u32) -> (key: i64)
    ensures
        key == key_of(bits),
{
    if bits >= 0x8000_0000 {
        0x8000_0000i64 - bits as i64
    } else {
        bits as i64
    }
}

impl Vertex {
    /// The corner whose coordinates have the bit patterns `x`, `y` and `z`.
    pub fn from_bits(x: u32, y: u32, z: u32) -> (r: Vertex)
        ensures
            r == (Vertex { x: key_of(x) as i64, y: key_of(y) as i64, z: key_of(z) as i64 }),
    {
        Vertex { x: coordinate_key(x), y: coordinate_key(y), z: coordinate_key(z) }
    }
}

/// Where a corner lies in its box before the box is turned: on which side of
/// the center along the width and along the length, and whether on top.
#[derive(Clone, Copy, Debug, PartialEq, Eq, Structural)]
pub struct Corner {
    /// 1 for half the width to the one side, -1 for half to the other.
    pub width: i8,
    /// 1 for half the length to the one side, -1 for half to the other.
    pub length: i8,
    /// Whether the corner lies a height above the center's level.
    pub top: bool,
}

/// The sides of the four corners of a face, as (width, length), in the order
/// in which a box is built.
pub open spec fn face() -> Seq<(int, int)> {
    seq![(1, 1), (1, -1), (-1, 1), (-1, -1)]
}

/// The corner that is built as number `index` of a box: the four of the
/// lower face, then the same four of the upper face.
pub open spec fn corner_of(index: int) -> Corner {
    Corner {
        width: face()[index % 4].0 as i8,
        length: face()[index % 4].1 as i8,
        top: index >= 4,
    }
}

/// The corner that is built as number `index` of a box.
pub fn corner(index: usize) -> (r: Corner)
    requires
        index < CORNERS,
    ensures
        r == corner_of(index as int),
{
    let place = index % 4;
    Corner {
        width: if place < 2 {
            1
        } else {
            -1
        },
        length: if place % 2 == 0 {
            1
        } else {
            -1
        },
        top: index >= 4,
    }
}

} // verus!
