//! Cells and neighbour geometry.
//!
//! A cell is an `(x, y)` coordinate pair in the infinite plane.  Every cell
//! has exactly eight neighbours, the cells at Chebyshev distance 1.
//! Coordinate arithmetic wraps around at the `i32` boundary, so the
//! neighbour relation is total and symmetric on the whole coordinate space.

use vstd::prelude::*;

verus! {

/// A cell of the simulation plane, identified by its coordinates.
pub type Cell = (i32, i32);

/// The eight neighbours of `c`, in a fixed order: the row above, the two
/// horizontal neighbours, then the row below.
pub open spec fn spec_neighbors(c: Cell) -> Seq<Cell> {
    let xl = c.0.wrapping_sub(1);
    let xr = c.0.wrapping_add(1);
    let yu = c.1.wrapping_sub(1);
    let yd = c.1.wrapping_add(1);
    seq![
        (xl, yu),
        (c.0, yu),
        (xr, yu),
        (xl, c.1),
        (xr, c.1),
        (xl, yd),
        (c.0, yd),
        (xr, yd),
    ]
}

/// `d` is one of the eight neighbours of `c`.
pub open spec fn is_neighbor(c: Cell, d: Cell) -> bool {
    spec_neighbors(c).contains(d)
}

/// Returns an array of the coordinates of the neighbors of the cell's
/// coordinates given.
pub fn get_neighbors(coordinates: &Cell) -> (r: [Cell; 8])
    ensures
        r@ == spec_neighbors(*coordinates),
{
    let (x, y) = *coordinates;
    let (x_left, x_right) = (x.wrapping_sub(1), x.wrapping_add(1));
    let (y_up, y_down) = (y.wrapping_sub(1), y.wrapping_add(1));

    let r = [
        (x_left, y_up),
        (x, y_up),
        (x_right, y_up),
        (x_left, y),
        (x_right, y),
        (x_left, y_down),
        (x, y_down),
        (x_right, y_down),
    ];
    proof {
        assert(r@ =~= spec_neighbors(*coordinates));
    }
    r
}

/// Where a pattern cell lands when pasted under a view translation: the
/// view's second component shifts `x`, its first component shifts `y`
/// (the view axes are swapped relative to cell axes).  Wraps at the
/// `i32` boundary.
pub open spec fn view_shifted(c: Cell, view: (i32, i32)) -> Cell {
    (c.0.wrapping_add(view.1), c.1.wrapping_sub(view.0))
}

/// Translates one cell by a view offset.
pub fn view_shift(c: Cell, view: (i32, i32)) -> (r: Cell)
    ensures
        r == view_shifted(c, view),
{
    (c.0.wrapping_add(view.1), c.1.wrapping_sub(view.0))
}

/// Whether a cell lies strictly inside a rectangular window of cell
/// coordinates.
pub open spec fn in_window(c: Cell, left: int, right: int, top: int, bottom: int) -> bool {
    c.0 > left && c.0 < right && c.1 > bottom && c.1 < top
}

/// Wrapping increment and decrement are mutually inverse.
pub proof fn lemma_wrap_inverse(x: i32)
    ensures
        x.wrapping_add(1).wrapping_sub(1) == x,
        x.wrapping_sub(1).wrapping_add(1) == x,
{
}

/// The neighbour relation is symmetric: `d` is a neighbour of `c` exactly
/// when `c` is a neighbour of `d`.
pub proof fn lemma_neighbor_symmetry(c: Cell, d: Cell)
    ensures
        is_neighbor(c, d) == is_neighbor(d, c),
{
    if is_neighbor(c, d) {
        let i = choose|i: int| 0 <= i < spec_neighbors(c).len() && spec_neighbors(c)[i] == d;
        lemma_wrap_inverse(c.0);
        lemma_wrap_inverse(c.1);
        let n = spec_neighbors(d);
        if i == 0 {
            assert(n[7] == c);
        } else if i == 1 {
            assert(n[6] == c);
        } else if i == 2 {
            assert(n[5] == c);
        } else if i == 3 {
            assert(n[4] == c);
        } else if i == 4 {
            assert(n[3] == c);
        } else if i == 5 {
            assert(n[2] == c);
        } else if i == 6 {
            assert(n[1] == c);
        } else {
            assert(n[0] == c);
        }
        assert(is_neighbor(d, c));
    }
    if is_neighbor(d, c) {
        let i = choose|i: int| 0 <= i < spec_neighbors(d).len() && spec_neighbors(d)[i] == c;
        lemma_wrap_inverse(d.0);
        lemma_wrap_inverse(d.1);
        let n = spec_neighbors(c);
        if i == 0 {
            assert(n[7] == d);
        } else if i == 1 {
            assert(n[6] == d);
        } else if i == 2 {
            assert(n[5] == d);
        } else if i == 3 {
            assert(n[4] == d);
        } else if i == 4 {
            assert(n[3] == d);
        } else if i == 5 {
            assert(n[2] == d);
        } else if i == 6 {
            assert(n[1] == d);
        } else {
            assert(n[0] == d);
        }
        assert(is_neighbor(c, d));
    }
}

} // verus!
