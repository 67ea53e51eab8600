//! Sites (2-D points) and RGBA colors, in fixed-point micro-units.

use vstd::prelude::*;

verus! {

/// Micro-units per canvas unit: coordinates and color channels are stored
/// as integers scaled by this factor.
pub const UNIT: i64 = 1_000_000;

/// Largest coordinate magnitude the persistence format can carry:
/// twelve integer digits and six fractional digits.
pub const MAX_COORD: i64 = 999_999_999_999_999_999;

/// Two sites closer than this in both axes count as the same site
/// (one thousandth of a canvas unit).
pub const EPSILON: i64 = 1_000;

/// A color channel ranges over `0 ..= COLOR_MAX`, standing for `0.0 ..= 1.0`.
pub const COLOR_MAX: u32 = 1_000_000;

/// A user-placed 2-D point, in micro-units.
#[derive(Clone, Copy, PartialEq, Eq, Structural, Debug)]
pub struct Site {
    pub x: i64,
    pub y: i64,
}

/// An RGBA color; each channel in `0 ..= COLOR_MAX`.
#[derive(Clone, Copy, PartialEq, Eq, Structural, Debug)]
pub struct Color {
    pub r: u32,
    pub g: u32,
    pub b: u32,
    pub a: u32,
}

impl Site {
    /// The coordinate fits the persistence format (and all arithmetic on it).
    pub open spec fn ok(self) -> bool {
        -MAX_COORD <= self.x <= MAX_COORD && -MAX_COORD <= self.y <= MAX_COORD
    }

    pub fn new(x: i64, y: i64) -> (s: Site)
        ensures
            s == (Site { x, y }),
    {
        Site { x, y }
    }
}

impl Color {
    pub open spec fn ok(self) -> bool {
        self.r <= COLOR_MAX && self.g <= COLOR_MAX && self.b <= COLOR_MAX && self.a <= COLOR_MAX
    }
}

/// Sites `a` and `b` lie within `EPSILON` of each other in both axes
/// (an axis-aligned box test, not a Euclidean radius).
pub open spec fn near(a: Site, b: Site) -> bool {
    -EPSILON < a.x - b.x < EPSILON && -EPSILON < a.y - b.y < EPSILON
}

/// No two sites of the sequence lie within `EPSILON` of each other.
pub open spec fn separated(sites: Seq<Site>) -> bool {
    forall|i: int, j: int| 0 <= i < sites.len() && 0 <= j < sites.len() && i != j
        ==> !near(sites[i], sites[j])
}

/// Every site of the sequence is within coordinate bounds.
pub open spec fn all_ok(sites: Seq<Site>) -> bool {
    forall|i: int| 0 <= i < sites.len() ==> #[trigger] sites[i].ok()
}

/// Decides `near(a, b)`.
pub fn is_near(a: Site, b: Site) -> (r: bool)
    requires
        a.ok(),
        b.ok(),
    ensures
        r == near(a, b),
{
    let dx: i64 = a.x - b.x;
    let dy: i64 = a.y - b.y;
    -EPSILON < dx && dx < EPSILON && -EPSILON < dy && dy < EPSILON
}

} // verus!
