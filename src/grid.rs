use vstd::prelude::*;

verus! {

/// Terrain of one grid cell as reported by the host.
#[derive(Clone, Copy, Debug, PartialEq, Eq, Structural)]
pub enum TileKind {
    Floor,
    Wall,
    OpenDoor,
    ClosedDoor,
    /// Observed, but outside the playable area.
    Void,
}

/// A cardinal direction of travel.
#[derive(Clone, Copy, Debug, PartialEq, Eq, Structural)]
pub enum Direction {
    North,
    South,
    West,
    East,
}

/// An absolute grid coordinate; North is towards smaller `y`.
#[derive(Clone, Copy, Debug, PartialEq, Eq, Structural)]
pub struct Coord {
    pub x: i64,
    pub y: i64,
}

impl View for Coord {
    type V = (int, int);

    open spec fn view(&self) -> (int, int) {
        (self.x as int, self.y as int)
    }
}

impl Coord {
    pub fn new(x: i64, y: i64) -> (r: Coord)
        ensures
            r.x == x,
            r.y == y,
    {
        Coord { x, y }
    }
}

/// Whether a coordinate is representable by `Coord`.
pub open spec fn in_range(c: (int, int)) -> bool {
    i64::MIN <= c.0 <= i64::MAX && i64::MIN <= c.1 <= i64::MAX
}

/// The cell one unit away from `c` in direction `d`.
pub open spec fn step(c: (int, int), d: Direction) -> (int, int) {
    match d {
        Direction::North => (c.0, c.1 - 1),
        Direction::South => (c.0, c.1 + 1),
        Direction::West => (c.0 - 1, c.1),
        Direction::East => (c.0 + 1, c.1),
    }
}

/// The fixed order in which neighbours are examined.
pub open spec fn dir_at(k: int) -> Direction {
    if k == 0 {
        Direction::North
    } else if k == 1 {
        Direction::South
    } else if k == 2 {
        Direction::West
    } else {
        Direction::East
    }
}

/// Tiles that the frontier search may plan a route through.
pub open spec fn passable(t: TileKind) -> bool {
    t == TileKind::Floor || t == TileKind::OpenDoor || t == TileKind::ClosedDoor
}

pub fn is_passable(t: TileKind) -> (r: bool)
    ensures
        r == passable(t),
{
    match t {
        TileKind::Floor | TileKind::OpenDoor | TileKind::ClosedDoor => true,
        _ => false,
    }
}

/// The direction examined at position `k` of the fixed neighbour order.
pub fn direction_at(k: usize) -> (r: Direction)
    requires
        k < 4,
    ensures
        r == dir_at(k as int),
{
    if k == 0 {
        Direction::North
    } else if k == 1 {
        Direction::South
    } else if k == 2 {
        Direction::West
    } else {
        Direction::East
    }
}

/// Key under which a representable coordinate is stored.
pub open spec fn key_of(c: (int, int)) -> int {
    c.0 * 0x1_0000_0000_0000_0000 + (c.1 + 0x8000_0000_0000_0000)
}

pub proof fn lemma_key_bounds(c: (int, int))
    requires
        in_range(c),
    ensures
        i128::MIN <= key_of(c) <= i128::MAX,
{
    assert(i128::MIN <= key_of(c) <= i128::MAX) by (nonlinear_arith)
        requires
            in_range(c),
    ;
}

pub proof fn lemma_key_injective(a: (int, int), b: (int, int))
    requires
        in_range(a),
        in_range(b),
        key_of(a) == key_of(b),
    ensures
        a == b,
{
    let p: int = 0x1_0000_0000_0000_0000;
    let ra = a.1 + 0x8000_0000_0000_0000;
    let rb = b.1 + 0x8000_0000_0000_0000;
    assert(a.0 == b.0) by (nonlinear_arith)
        requires
            a.0 * p + ra == b.0 * p + rb,
            0 <= ra < p,
            0 <= rb < p,
            p > 0,
    ;
}

/// Storage key of a representable coordinate given in wide integers.
pub fn key_at(x: i128, y: i128) -> (k: i128)
    requires
        in_range((x as int, y as int)),
    ensures
        k as int == key_of((x as int, y as int)),
{
    proof {
        lemma_key_bounds((x as int, y as int));
    }
    x * 0x1_0000_0000_0000_0000 + (y + 0x8000_0000_0000_0000)
}

} // verus!
