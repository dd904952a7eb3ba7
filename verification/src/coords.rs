//! Coordinate model: levels (power-of-two region sizes), absolute positions,
//! relative offsets and quadrant tags.

use vstd::prelude::*;

verus! {

use vstd::arithmetic::power2::{pow2, lemma_pow2_adds, lemma_pow2_pos, lemma2_to64, lemma2_to64_rest};
use vstd::bits::lemma_u64_shl_is_mul;

/// Largest level a node may have; a node of this level spans a square of
/// side `2^63` cells.
pub const MAX_LEVEL: u8 = 63;

/// Level of a leaf node, which spans a single cell.
pub const LEAF_LEVEL: u8 = 0;

/// Proves that `pow2(e)` fits in a `u64` for every level-sized exponent.
pub proof fn lemma_pow2_fits_u64(e: nat)
    requires
        e <= 63,
    ensures
        pow2(e) < 0x1_0000_0000_0000_0000,
{
    lemma2_to64();
    lemma2_to64_rest();
    if e < 63 {
        vstd::arithmetic::power2::lemma_pow2_strictly_increases(e, 63);
    }
}

/// Proves that `pow2(e)` fits in an `i64` for exponents up to 62.
pub proof fn lemma_pow2_fits_i64(e: nat)
    requires
        e <= 62,
    ensures
        pow2(e) <= 0x4000_0000_0000_0000,
{
    lemma2_to64();
    lemma2_to64_rest();
    if e < 62 {
        vstd::arithmetic::power2::lemma_pow2_strictly_increases(e, 62);
    }
}

/// Regions of higher level contain the regions of lower level.
pub proof fn lemma_half_side_mono(l1: nat, l2: nat)
    requires
        1 <= l1 <= l2,
    ensures
        half_side(l1) <= half_side(l2),
{
    if l1 < l2 {
        vstd::arithmetic::power2::lemma_pow2_strictly_increases((l1 - 1) as nat, (l2 - 1) as nat);
    }
}

/// A node's level: the represented square region has side `2^level` cells.
#[derive(Debug, Copy, Clone, PartialEq, Eq, Structural)]
pub struct Level(pub u8);

/// Half the side length of a level-`level` region: the region spans
/// coordinates `-half_side(level) .. half_side(level)` on each axis.
pub open spec fn half_side(level: nat) -> int
    recommends
        level >= 1,
{
    pow2((level - 1) as nat) as int
}

/// Displacement from a node's center to one of its quadrants' centers:
/// a quarter of the side length (0 for levels 0 and 1).
pub open spec fn quad_delta(level: nat) -> int {
    if level >= 2 {
        pow2((level - 2) as nat) as int
    } else {
        0
    }
}

impl Level {
    pub fn new(n: u8) -> (r: Self)
        requires
            n <= MAX_LEVEL,
        ensures
            r.0 == n,
    {
        Level(n)
    }

    /// Side length in cells of the square region a node of this level spans.
    pub fn side_len(self) -> (r: u64)
        requires
            self.0 <= MAX_LEVEL,
        ensures
            r == pow2(self.0 as nat),
    {
        proof {
            lemma_pow2_fits_u64(self.0 as nat);
            lemma_u64_shl_is_mul(1u64, self.0 as u64);
        }
        1u64 << (self.0 as u64)
    }

    /// Center of the given quadrant of a region of this level, in the
    /// region's own coordinates.
    pub fn quadrant_center(self, quadrant: Quadrant) -> (r: Position)
        requires
            self.0 <= MAX_LEVEL,
        ensures
            r.x == (if quadrant is NorthWest || quadrant is SouthWest {
                -quad_delta(self.0 as nat)
            } else {
                quad_delta(self.0 as nat)
            }),
            r.y == (if quadrant is NorthWest || quadrant is NorthEast {
                -quad_delta(self.0 as nat)
            } else {
                quad_delta(self.0 as nat)
            }),
    {
        let side = self.side_len();
        let delta_u = side / 4;
        proof {
            lemma2_to64();
            if self.0 >= 2 {
                lemma_pow2_adds(2, (self.0 - 2) as nat);
                lemma_pow2_fits_i64((self.0 - 2) as nat);
                assert(pow2(self.0 as nat) == 4 * pow2((self.0 - 2) as nat));
            }
        }
        let delta = delta_u as i64;
        match quadrant {
            Quadrant::NorthWest => Position { x: -delta, y: -delta },
            Quadrant::NorthEast => Position { x: delta, y: -delta },
            Quadrant::SouthWest => Position { x: -delta, y: delta },
            Quadrant::SouthEast => Position { x: delta, y: delta },
        }
    }

    /// Smallest coordinate inside this level's square region.
    pub fn min_coord(self) -> (r: i64)
        requires
            1 <= self.0 <= MAX_LEVEL,
        ensures
            r == -half_side(self.0 as nat),
    {
        proof {
            lemma_pow2_fits_i64((self.0 - 1) as nat);
            lemma_u64_shl_is_mul(1u64, (self.0 - 1) as u64);
        }
        let h = 1u64 << ((self.0 - 1) as u64);
        -(h as i64)
    }

    /// Largest coordinate inside this level's square region.
    pub fn max_coord(self) -> (r: i64)
        requires
            1 <= self.0 <= MAX_LEVEL,
        ensures
            r == half_side(self.0 as nat) - 1,
    {
        proof {
            lemma_pow2_fits_i64((self.0 - 1) as nat);
            lemma_u64_shl_is_mul(1u64, (self.0 - 1) as u64);
            lemma_pow2_pos((self.0 - 1) as nat);
        }
        let h = 1u64 << ((self.0 - 1) as u64);
        (h as i64) - 1
    }

    /// Half-open range of the coordinates inside this level's square region.
    pub fn coord_range(self) -> (r: core::ops::Range<i64>)
        requires
            1 <= self.0 <= MAX_LEVEL,
        ensures
            r.start == -half_side(self.0 as nat),
            r.end == half_side(self.0 as nat),
    {
        proof {
            lemma_pow2_fits_i64((self.0 - 1) as nat);
        }
        self.min_coord()..(self.max_coord() + 1)
    }

    /// Corner position with the smallest coordinates of this level's region.
    pub fn min_pos(self) -> (r: Position)
        requires
            1 <= self.0 <= MAX_LEVEL,
        ensures
            r.x == -half_side(self.0 as nat),
            r.y == -half_side(self.0 as nat),
    {
        let min = self.min_coord();
        Position { x: min, y: min }
    }

    /// Corner position with the largest coordinates of this level's region.
    pub fn max_pos(self) -> (r: Position)
        requires
            1 <= self.0 <= MAX_LEVEL,
        ensures
            r.x == half_side(self.0 as nat) - 1,
            r.y == half_side(self.0 as nat) - 1,
    {
        let max = self.max_coord();
        Position { x: max, y: max }
    }

    /// Number of generations a single evolution step of a node of this level
    /// would advance under the classic time-doubling scheme: a quarter of the
    /// side length.
    pub fn max_steps(self) -> (r: u64)
        requires
            2 <= self.0 <= MAX_LEVEL,
        ensures
            r == pow2((self.0 - 2) as nat),
    {
        proof {
            lemma_pow2_fits_u64((self.0 - 2) as nat);
            lemma_u64_shl_is_mul(1u64, (self.0 - 2) as u64);
        }
        1u64 << ((self.0 - 2) as u64)
    }
}

/// An absolute grid position; the origin is the center of the root region.
#[derive(Debug, Copy, Clone, PartialEq, Eq, Structural)]
pub struct Position {
    pub x: i64,
    pub y: i64,
}

/// A relative displacement between positions.
#[derive(Debug, Copy, Clone, PartialEq, Eq, Structural)]
pub struct Offset {
    pub dx: i64,
    pub dy: i64,
}

/// One of the four quadrants of a square region.
#[derive(Debug, Copy, Clone, PartialEq, Eq, Structural)]
pub enum Quadrant {
    NorthWest,
    NorthEast,
    SouthWest,
    SouthEast,
}

/// The quadrant a position falls in, by the sign of each coordinate.
pub open spec fn spec_quadrant(x: int, y: int) -> Quadrant {
    if x < 0 && y < 0 {
        Quadrant::NorthWest
    } else if x >= 0 && y < 0 {
        Quadrant::NorthEast
    } else if x < 0 {
        Quadrant::SouthWest
    } else {
        Quadrant::SouthEast
    }
}

/// Displacement from a node's center to the center of the child quadrant on
/// the side given by the sign `s` (per axis). Level-1 children are single
/// cells at offsets -1 and 0 under the half-open coordinate convention.
pub open spec fn quad_offset(level: nat, s: int) -> int {
    if level >= 2 {
        if s < 0 {
            -quad_delta(level)
        } else {
            quad_delta(level)
        }
    } else {
        if s < 0 {
            -1
        } else {
            0
        }
    }
}

/// Whether a position lies inside the square region of the given level.
pub open spec fn spec_in_bounds(x: int, y: int, level: nat) -> bool {
    &&& -half_side(level) <= x < half_side(level)
    &&& -half_side(level) <= y < half_side(level)
}

impl Position {
    pub fn new(x: i64, y: i64) -> (r: Self)
        ensures
            r.x == x,
            r.y == y,
    {
        Position { x, y }
    }

    /// The quadrant this position falls in relative to the origin.
    pub fn quadrant(self) -> (r: Quadrant)
        ensures
            r == spec_quadrant(self.x as int, self.y as int),
    {
        match (self.x < 0, self.y < 0) {
            (true, true) => Quadrant::NorthWest,
            (false, true) => Quadrant::NorthEast,
            (true, false) => Quadrant::SouthWest,
            (false, false) => Quadrant::SouthEast,
        }
    }

    /// This position expressed in coordinates centered on `other`.
    pub fn relative_to(self, other: Self) -> (r: Self)
        requires
            i64::MIN <= self.x - other.x <= i64::MAX,
            i64::MIN <= self.y - other.y <= i64::MAX,
        ensures
            r.x == self.x - other.x,
            r.y == self.y - other.y,
    {
        Position { x: self.x - other.x, y: self.y - other.y }
    }

    /// Whether this position lies inside the square region of `level`.
    pub fn in_bounds(self, level: Level) -> (r: bool)
        requires
            1 <= level.0 <= MAX_LEVEL,
        ensures
            r == spec_in_bounds(self.x as int, self.y as int, level.0 as nat),
    {
        let min = level.min_coord();
        let max = level.max_coord();
        min <= self.x && self.x <= max && min <= self.y && self.y <= max
    }
}

impl Offset {
    pub fn new(dx: i64, dy: i64) -> (r: Self)
        ensures
            r.dx == dx,
            r.dy == dy,
    {
        Offset { dx, dy }
    }
}

} // verus!
