//! Percolation detection: whether some cluster label touches both of a
//! pair of opposite lattice boundaries (top/bottom rows or left/right
//! columns).

use vstd::prelude::*;
use crate::grid::{adjacent, site_at, valid_grid};
use crate::clusters::{lemma_stable_adjacent_equal, stable};

verus! {

/// Label `lab` appears somewhere in the top row.
pub open spec fn in_top_row(s: Seq<u32>, rows: int, cols: int, lab: u32) -> bool {
    exists|c: int| 0 <= c < cols && s[c] == lab
}

/// Label `lab` appears somewhere in the bottom row (the last `cols` sites).
pub open spec fn in_bottom_row(s: Seq<u32>, rows: int, cols: int, lab: u32) -> bool {
    exists|k: int| rows * cols - cols <= k < rows * cols && s[k] == lab
}

/// Label `lab` appears somewhere in the leftmost column.
pub open spec fn in_left_col(s: Seq<u32>, rows: int, cols: int, lab: u32) -> bool {
    exists|r: int| 0 <= r < rows && s[site_at(r, 0, cols)] == lab
}

/// The site index in row `r` of the rightmost column.
pub open spec fn right_site(r: int, cols: int) -> int {
    site_at(r, cols - 1, cols)
}

/// Label `lab` appears somewhere in the rightmost column.
pub open spec fn in_right_col(s: Seq<u32>, rows: int, cols: int, lab: u32) -> bool {
    exists|r: int| 0 <= r < rows && s[right_site(r, cols)] == lab
}

/// Cluster `lab` spans the lattice: a positive label appearing on both the
/// top and bottom rows (vertical percolation) or on both the left and right
/// columns (horizontal percolation). On a single-row grid the top and bottom
/// rows coincide, so any open site percolates vertically there.
pub open spec fn percolates_label(s: Seq<u32>, rows: int, cols: int, lab: u32) -> bool {
    lab > 0 && ((in_top_row(s, rows, cols, lab) && in_bottom_row(s, rows, cols, lab)) || (
    in_left_col(s, rows, cols, lab) && in_right_col(s, rows, cols, lab)))
}

/// Some cluster spans the lattice.
pub open spec fn percolates(s: Seq<u32>, rows: int, cols: int) -> bool {
    exists|lab: u32| percolates_label(s, rows, cols, lab)
}

fn range_has_label(arr: &Vec<u32>, lo: usize, hi: usize, lab: u32) -> (b: bool)
    requires
        lo <= hi <= arr@.len(),
    ensures
        b == exists|k: int| lo <= k < hi && arr@[k] == lab,
{
    let mut k = lo;
    while k < hi
        invariant
            lo <= k <= hi <= arr@.len(),
            forall|t: int| lo <= t < k ==> arr@[t] != lab,
        decreases hi - k,
    {
        if arr[k] == lab {
            return true;
        }
        k += 1;
    }
    false
}

fn right_col_has_label(arr: &Vec<u32>, rows: usize, cols: usize, lab: u32) -> (b: bool)
    requires
        valid_grid(rows as int, cols as int),
        arr@.len() == rows * cols,
    ensures
        b == in_right_col(arr@, rows as int, cols as int, lab),
{
    let mut r: usize = 0;
    while r < rows
        invariant
            valid_grid(rows as int, cols as int),
            arr@.len() == rows * cols,
            r <= rows,
            forall|t: int| 0 <= t < r ==> arr@[#[trigger] right_site(t, cols as int)] != lab,
        decreases rows - r,
    {
        proof {
            assert(0 <= (r as int) * (cols as int) && (r as int) * (cols as int) + (cols as int)
                - 1 < (rows as int) * (cols as int)) by (nonlinear_arith)
                requires
                    0 <= (r as int) < (rows as int),
                    (cols as int) >= 1,
            ;
        }
        let idx = r * cols + (cols - 1);
        proof {
            assert(right_site(r as int, cols as int) == idx);
        }
        if arr[idx] == lab {
            proof {
                assert(arr@[right_site(r as int, cols as int)] == lab);
            }
            return true;
        }
        proof {
            assert(arr@[right_site(r as int, cols as int)] != lab);
        }
        r += 1;
    }
    false
}

/// Determine whether any cluster label touches both of a pair of opposite
/// boundaries, and if so report one such label; when none does, the site
/// count is returned as a sentinel in place of a label.
pub fn check_percolation(arr: &Vec<u32>, rows: usize, cols: usize) -> (r: (bool, u32))
    requires
        valid_grid(rows as int, cols as int),
        arr@.len() == rows * cols,
    ensures
        r.0 == percolates(arr@, rows as int, cols as int),
        r.0 ==> percolates_label(arr@, rows as int, cols as int, r.1),
        !r.0 ==> r.1 == arr@.len(),
{
    let len = rows * cols;
    proof {
        vstd::arithmetic::mul::lemma_mul_inequality(1, rows as int, cols as int);
    }
    let mut c: usize = 0;
    while c < cols
        invariant
            valid_grid(rows as int, cols as int),
            arr@.len() == rows * cols,
            len == rows * cols,
            cols <= len,
            c <= cols,
            forall|t: int|
                0 <= t < c ==> !((#[trigger] arr@[t]) > 0 && in_bottom_row(
                    arr@,
                    rows as int,
                    cols as int,
                    arr@[t],
                )),
        decreases cols - c,
    {
        let lab = arr[c];
        if lab > 0 {
            if range_has_label(arr, len - cols, len, lab) {
                proof {
                    assert(in_top_row(arr@, rows as int, cols as int, lab));
                    assert(in_bottom_row(arr@, rows as int, cols as int, lab));
                    assert(percolates_label(arr@, rows as int, cols as int, lab));
                }
                return (true, lab);
            }
        }
        c += 1;
    }
    let mut row: usize = 0;
    while row < rows
        invariant
            valid_grid(rows as int, cols as int),
            arr@.len() == rows * cols,
            len == rows * cols,
            row <= rows,
            forall|t: int|
                0 <= t < row ==> !(arr@[#[trigger] site_at(t, 0, cols as int)] > 0
                    && in_right_col(arr@, rows as int, cols as int, arr@[site_at(
                    t,
                    0,
                    cols as int,
                )])),
        decreases rows - row,
    {
        proof {
            assert(0 <= (row as int) * (cols as int) && (row as int) * (cols as int) + (
            cols as int) - 1 < (rows as int) * (cols as int)) by (nonlinear_arith)
                requires
                    0 <= (row as int) < (rows as int),
                    (cols as int) >= 1,
            ;
        }
        let idx = row * cols;
        let lab = arr[idx];
        proof {
            assert(site_at(row as int, 0, cols as int) == idx);
        }
        if lab > 0 {
            if right_col_has_label(arr, rows, cols, lab) {
                proof {
                    assert(arr@[site_at(row as int, 0, cols as int)] == lab);
                    assert(in_left_col(arr@, rows as int, cols as int, lab));
                    assert(in_right_col(arr@, rows as int, cols as int, lab));
                    assert(percolates_label(arr@, rows as int, cols as int, lab));
                }
                return (true, lab);
            }
        }
        row += 1;
    }
    proof {
        assert(!percolates(arr@, rows as int, cols as int)) by {
            if percolates(arr@, rows as int, cols as int) {
                let lab = choose|lab: u32|
                    percolates_label(arr@, rows as int, cols as int, lab);
                if in_top_row(arr@, rows as int, cols as int, lab) && in_bottom_row(
                    arr@,
                    rows as int,
                    cols as int,
                    lab,
                ) {
                    let t = choose|t: int| 0 <= t < cols && arr@[t] == lab;
                    assert(arr@[t] > 0 && in_bottom_row(arr@, rows as int, cols as int, arr@[t]));
                } else {
                    let t = choose|t: int|
                        0 <= t < rows && arr@[site_at(t, 0, cols as int)] == lab;
                    assert(arr@[site_at(t, 0, cols as int)] > 0 && in_right_col(
                        arr@,
                        rows as int,
                        cols as int,
                        arr@[site_at(t, 0, cols as int)],
                    ));
                }
            }
        }
    }
    (false, len as u32)
}

/// In a stable, fully open lattice every site carries site 0's label.
proof fn lemma_full_same_label(s: Seq<u32>, rows: int, cols: int, i: int)
    requires
        valid_grid(rows, cols),
        s.len() == rows * cols,
        stable(s, rows, cols),
        forall|k: int| 0 <= k < s.len() ==> s[k] > 0,
        0 <= i < s.len(),
    ensures
        s[i] == s[0],
    decreases i,
{
    if i >= cols {
        let j = i - cols;
        assert(adjacent(i, j, rows, cols));
        lemma_stable_adjacent_equal(s, rows, cols, i, j);
        lemma_full_same_label(s, rows, cols, j);
    } else if i > 0 {
        let j = i - 1;
        vstd::arithmetic::div_mod::lemma_small_mod(i as nat, cols as nat);
        assert(adjacent(i, j, rows, cols));
        lemma_stable_adjacent_equal(s, rows, cols, i, j);
        lemma_full_same_label(s, rows, cols, j);
    }
}

/// A stable, fully opened lattice always spans: all sites share one label,
/// which touches both the top and bottom rows.
pub proof fn lemma_full_lattice_percolates(s: Seq<u32>, rows: int, cols: int)
    requires
        valid_grid(rows, cols),
        s.len() == rows * cols,
        stable(s, rows, cols),
        forall|k: int| 0 <= k < s.len() ==> s[k] > 0,
    ensures
        percolates(s, rows, cols),
{
    vstd::arithmetic::mul::lemma_mul_inequality(1, rows, cols);
    let lab = s[0];
    assert(in_top_row(s, rows, cols, lab));
    let b = rows * cols - cols;
    lemma_full_same_label(s, rows, cols, b);
    assert(s[b] == lab);
    assert(in_bottom_row(s, rows, cols, lab));
    assert(percolates_label(s, rows, cols, lab));
}

/// An all-blocked lattice never spans.
pub proof fn lemma_blocked_no_percolation(s: Seq<u32>, rows: int, cols: int)
    requires
        valid_grid(rows, cols),
        s.len() == rows * cols,
        forall|k: int| 0 <= k < s.len() ==> s[k] == 0,
    ensures
        !percolates(s, rows, cols),
{
    vstd::arithmetic::mul::lemma_mul_inequality(1, rows, cols);
    if percolates(s, rows, cols) {
        let lab = choose|lab: u32| percolates_label(s, rows, cols, lab);
        if in_top_row(s, rows, cols, lab) && in_bottom_row(s, rows, cols, lab) {
            let c = choose|c: int| 0 <= c < cols && s[c] == lab;
            assert(s[c] == 0);
        } else {
            let r = choose|r: int| 0 <= r < rows && s[site_at(r, 0, cols)] == lab;
            assert(0 <= r * cols && r * cols < rows * cols) by (nonlinear_arith)
                requires
                    0 <= r < rows,
                    cols >= 1,
            ;
            assert(site_at(r, 0, cols) == r * cols);
            assert(s[site_at(r, 0, cols)] == 0);
        }
    }
}

} // verus!
