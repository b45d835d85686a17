//! Axial hex-coordinate arithmetic.
use vstd::prelude::*;

verus! {

/// A cell of the hex grid in flat-top axial coordinates: `x` grows towards
/// two o'clock, `y` towards north.
#[derive(PartialEq, Eq, Structural, Clone, Copy, Debug, Hash)]
pub struct Pos {
    pub x: i32,
    pub y: i32,
}

/// One of the six neighbour directions, numbered `0..6` in cyclic order.
pub type Rotation = usize;

/// The x offset of a step in direction `r`.
pub open spec fn dir_dx(r: int) -> int {
    if r == 1 || r == 2 {
        1
    } else if r == 4 || r == 5 {
        -1
    } else {
        0
    }
}

/// The y offset of a step in direction `r`.
pub open spec fn dir_dy(r: int) -> int {
    if r == 0 || r == 5 {
        1
    } else if r == 2 || r == 3 {
        -1
    } else {
        0
    }
}

/// Whether every cell next to `p` has coordinates that fit an `i32`.
pub open spec fn neighbors_fit(p: Pos) -> bool {
    i32::MIN < p.x < i32::MAX && i32::MIN < p.y < i32::MAX
}

/// The cell next to `p` in direction `r`.
pub open spec fn neighbor(p: Pos, r: int) -> Pos {
    Pos { x: (p.x + dir_dx(r)) as i32, y: (p.y + dir_dy(r)) as i32 }
}

/// Whether `q` is one of the six cells around `p`.
pub open spec fn adjacent(p: Pos, q: Pos) -> bool {
    exists|r: int| 0 <= r < 6 && neighbor(p, r) == q
}

/// The direction that points back across the edge that `r` crosses.
pub open spec fn opposite(r: int) -> int {
    (r + 3) % 6
}

impl Pos {
    pub fn new(x: i32, y: i32) -> (r: Pos)
        ensures
            r == (Pos { x, y }),
    {
        Pos { x, y }
    }
}

/// The direction opposite to `rotation`.
pub fn opposite_side(rotation: Rotation) -> (r: Rotation)
    requires
        rotation < 6,
    ensures
        r == opposite(rotation as int),
        r < 6,
{
    (rotation + 3) % 6
}

/// The cell next to `pos` in direction `rotation`.
pub fn neighbor_pos_of(pos: Pos, rotation: Rotation) -> (r: Pos)
    requires
        rotation < 6,
        neighbors_fit(pos),
    ensures
        r == neighbor(pos, rotation as int),
        r.x == pos.x + dir_dx(rotation as int),
        r.y == pos.y + dir_dy(rotation as int),
{
    if rotation == 0 {
        Pos { x: pos.x, y: pos.y + 1 }
    } else if rotation == 1 {
        Pos { x: pos.x + 1, y: pos.y }
    } else if rotation == 2 {
        Pos { x: pos.x + 1, y: pos.y - 1 }
    } else if rotation == 3 {
        Pos { x: pos.x, y: pos.y - 1 }
    } else if rotation == 4 {
        Pos { x: pos.x - 1, y: pos.y }
    } else {
        Pos { x: pos.x - 1, y: pos.y + 1 }
    }
}

/// Stepping across an edge and back across it returns to the start.
pub proof fn lemma_neighbor_back(p: Pos, r: int)
    requires
        0 <= r < 6,
        neighbors_fit(p),
    ensures
        neighbor(neighbor(p, r), opposite(r)) == p,
        0 <= opposite(r) < 6,
        opposite(opposite(r)) == r,
{
}

/// Whether `y` is the axial row of the cell that the offset scheme calls
/// column `s`, row `t`: `y = t - ((s + 1) & !1) / 2`.
pub open spec fn axial_row(s: int, t: int) -> int {
    t - (s + 1) / 2
}

/// Converts a position of the offset scheme to axial coordinates.
pub fn axial_from_offset(s: i32, t: i32) -> (r: Pos)
    requires
        s < i32::MAX,
        i32::MIN / 2 <= t <= i32::MAX / 2,
    ensures
        r.x == s,
        r.y == axial_row(s as int, t as int),
{
    let half: i32 = if s >= 0 {
        ((s as u32 + 1) / 2) as i32
    } else {
        let neg: u32 = (-(s as i64)) as u32;
        -((neg / 2) as i32)
    };
    Pos { x: s, y: t - half }
}

} // verus!
