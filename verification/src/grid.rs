//! Geometry of the rectangular lattice: linear site indices and their
//! four neighbors (up, down, left, right) under the grid's row/column counts.

use vstd::prelude::*;

verus! {

/// A usable grid shape: at least one row and one column, and few enough
/// sites that every site's opening order fits in a `u32` label.
pub open spec fn valid_grid(rows: int, cols: int) -> bool {
    1 <= rows && 1 <= cols && rows * cols <= u32::MAX as int
}

/// The linear index of the site in row `r`, column `c`.
pub open spec fn site_at(r: int, c: int, cols: int) -> int {
    r * cols + c
}

/// Two site indices are 4-adjacent in a `rows` x `cols` grid: one step
/// up, down, left or right, never wrapping around a row boundary.
pub open spec fn adjacent(i: int, j: int, rows: int, cols: int) -> bool {
    &&& 0 <= i < rows * cols
    &&& 0 <= j < rows * cols
    &&& {
        ||| j == i - cols
        ||| j == i + cols
        ||| (j == i - 1 && i % cols != 0)
        ||| (j == i + 1 && j % cols != 0)
    }
}

/// 4-adjacency is symmetric.
pub proof fn lemma_adjacent_symmetric(i: int, j: int, rows: int, cols: int)
    requires
        cols >= 1,
    ensures
        adjacent(i, j, rows, cols) == adjacent(j, i, rows, cols),
{
}

/// The up/down/left/right neighbor indices of site `i`, or `None` exactly
/// when `i` lies on the grid edge in that direction; the down neighbor is
/// absent exactly on the last row. Present neighbors are always valid,
/// 4-adjacent site indices.
pub fn get_neigbors(i: usize, rows: usize, cols: usize) -> (r: (
    Option<usize>,
    Option<usize>,
    Option<usize>,
    Option<usize>,
))
    requires
        valid_grid(rows as int, cols as int),
        i < rows * cols,
    ensures
        r.0 == if i < cols { None::<usize> } else { Some((i - cols) as usize) },
        r.1 == if i + cols < rows * cols { Some((i + cols) as usize) } else { None::<usize> },
        r.2 == if i % cols == 0 { None::<usize> } else { Some((i - 1) as usize) },
        r.3 == if (i + 1) % (cols as int) == 0 { None::<usize> } else { Some((i + 1) as usize) },
        r.0 matches Some(u) ==> adjacent(i as int, u as int, rows as int, cols as int),
        r.1 matches Some(d) ==> adjacent(i as int, d as int, rows as int, cols as int),
        r.2 matches Some(l) ==> adjacent(i as int, l as int, rows as int, cols as int),
        r.3 matches Some(g) ==> adjacent(i as int, g as int, rows as int, cols as int),
{
    proof {
        vstd::arithmetic::div_mod::lemma_mod_multiples_basic(rows as int, cols as int);
        vstd::arithmetic::mul::lemma_mul_inequality(1, rows as int, cols as int);
        assert(0int % (cols as int) == 0);
    }
    let len = rows * cols;
    let up = if i < cols {
        None
    } else {
        Some(i - cols)
    };
    let down = if i < len - cols {
        Some(i + cols)
    } else {
        None
    };
    let left = if i % cols == 0 {
        None
    } else {
        Some(i - 1)
    };
    let right = if (i + 1) % cols == 0 {
        None
    } else {
        Some(i + 1)
    };
    (up, down, left, right)
}

} // verus!
