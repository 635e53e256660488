use vstd::prelude::*;
use crate::grid::{Coord, TileKind};
use crate::store::width_of;

verus! {

/// Offset from the window's centre of the cell at row-major index `i`.
pub open spec fn offset_of(i: int, r: int) -> (int, int) {
    (i % width_of(r) - r, i / width_of(r) - r)
}

/// One unit away from the centre along exactly one axis.
pub open spec fn cardinal(o: (int, int)) -> bool {
    (o.0 == 0 && (o.1 == 1 || o.1 == -1)) || (o.1 == 0 && (o.0 == 1 || o.0 == -1))
}

/// The cell at index `i` is a closed door next to the centre.
pub open spec fn door_at(window: Seq<TileKind>, r: int, i: int) -> bool {
    cardinal(offset_of(i, r)) && window[i] == TileKind::ClosedDoor
}

/// Index `i` holds the first adjacent closed door in row-major order.
pub open spec fn first_door(window: Seq<TileKind>, r: int, i: int) -> bool {
    &&& 0 <= i < window.len()
    &&& door_at(window, r, i)
    &&& forall|j: int| 0 <= j < i ==> !#[trigger] door_at(window, r, j)
}

/// Some cell of the window is an adjacent closed door.
pub open spec fn has_door(window: Seq<TileKind>, r: int) -> bool {
    exists|i: int| 0 <= i < window.len() && #[trigger] door_at(window, r, i)
}

/// Finds the first closed door, in row-major order, that lies one step North,
/// South, West or East of the centre of a window of radius `radius`, and
/// returns its offset from the centre.
pub fn scan(window: &Vec<TileKind>, radius: u16) -> (r: Option<Coord>)
    requires
        window@.len() == width_of(radius as int) * width_of(radius as int),
    ensures
        r is Some <==> has_door(window@, radius as int),
        r matches Some(o) ==> cardinal(o@) && exists|i: int|
            #[trigger] first_door(window@, radius as int, i) && o@ == offset_of(i, radius as int),
{
    let ghost rr = radius as int;
    let w: usize = 2 * radius as usize + 1;
    let n: usize = window.len();
    let mut row: usize = 0;
    let mut col: usize = 0;
    let mut i: usize = 0;
    while i < n
        invariant
            w == width_of(rr),
            rr == radius as int,
            n == window@.len(),
            n == w * w,
            col < w,
            i == row * w + col,
            i <= n,
            forall|j: int| 0 <= j < i ==> !#[trigger] door_at(window@, rr, j),
        decreases n - i,
    {
        proof {
            assert(row < w) by (nonlinear_arith)
                requires
                    i == row * w + col,
                    i < w * w,
                    col < w,
            ;
            vstd::arithmetic::div_mod::lemma_fundamental_div_mod_converse(i as int, w as int, row as int, col as int);
        }
        let x: i64 = col as i64 - radius as i64;
        let y: i64 = row as i64 - radius as i64;
        assert(offset_of(i as int, rr) == (x as int, y as int));
        if ((x == 0 && (y == 1 || y == -1)) || (y == 0 && (x == 1 || x == -1))) && window[i] == TileKind::ClosedDoor {
            assert(first_door(window@, rr, i as int));
            return Some(Coord { x, y });
        }
        let ghost (row0, col0) = (row as int, col as int);
        i = i + 1;
        if col + 1 == w {
            col = 0;
            row = row + 1;
            proof {
                assert(row * w == row0 * w + w) by (nonlinear_arith)
                    requires
                        row == row0 + 1,
                ;
            }
        } else {
            col = col + 1;
        }
    }
    None
}

} // verus!
