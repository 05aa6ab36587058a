//! The square grid the balls start on.
//!
//! The balls of a billiard are laid out row by row on a square grid of
//! `row_size` columns: ball `n` sits in column `n % row_size` of row
//! `n / row_size`, and both coordinates of a cell are spread evenly over the
//! billiard, `step * (index + 1)` with `step = size / (row_size + 1)`.

use vstd::arithmetic::div_mod::*;
use vstd::prelude::*;

verus! {

/// The most balls whose grid side still fits in a `u32`: `(2^32 - 1)^2`.
pub const MAX_BALL_COUNT: u64 = 0xffff_fffe_0000_0001;

/// `r` is the side of the smallest square grid that holds `count` balls:
/// the ceiling of the square root of `count`.
pub open spec fn is_row_size(count: nat, r: nat) -> bool {
    &&& r * r >= count
    &&& r == 0 || (r - 1) * (r - 1) < count
}

/// The number of balls on each row of the starting grid, `ceil(sqrt(count))`;
/// a count whose grid side would not fit in a `u32` saturates to `u32::MAX`.
pub fn row_size(count: usize) -> (r: u32)
    ensures
        count <= MAX_BALL_COUNT ==> is_row_size(count as nat, r as nat),
        count <= MAX_BALL_COUNT ==> r * r >= count && (r == 0 || (r - 1) * (r - 1) < count),
        count > MAX_BALL_COUNT ==> r == u32::MAX,
{
    if count as u64 > MAX_BALL_COUNT {
        return u32::MAX;
    }
    let target = count as u64;
    let mut lo: u64 = 0;
    let mut hi: u64 = 0xffff_ffff;
    assert(hi * hi >= target) by (nonlinear_arith)
        requires
            hi == 0xffff_ffffu64,
            target <= MAX_BALL_COUNT,
    ;
    while lo < hi
        invariant
            lo <= hi <= 0xffff_ffffu64,
            target == count,
            hi * hi >= target,
            lo == 0 || (lo - 1) * (lo - 1) < target,
        decreases hi - lo,
    {
        let mid = lo + (hi - lo) / 2;
        assert(mid * mid <= 0xffff_ffffu64 * 0xffff_ffffu64) by (nonlinear_arith)
            requires
                mid <= 0xffff_ffffu64,
        ;
        if mid * mid >= target {
            hi = mid;
        } else {
            lo = mid + 1;
        }
    }
    lo as u32
}

/// The cell of ball `n` on a grid with `r` balls per row: (column, row).
pub open spec fn grid_cell(n: int, r: int) -> (int, int) {
    (n % r, n / r)
}

/// The starting grid of `count` balls: its row size, and the cell of each
/// ball, in ball order.
pub fn grid_layout(count: usize) -> (layout: (u32, Vec<(usize, usize)>))
    ensures
        count <= MAX_BALL_COUNT ==> is_row_size(count as nat, layout.0 as nat),
        count <= MAX_BALL_COUNT ==> layout.0 * layout.0 >= count && (layout.0 == 0 || (layout.0 - 1)
            * (layout.0 - 1) < count),
        count > MAX_BALL_COUNT ==> layout.0 == u32::MAX,
        layout.1.len() == count,
        forall|n: int|
            0 <= n < count ==> (#[trigger] layout.1[n]).0 == n % (layout.0 as int) && layout.1[n].1
                == n / (layout.0 as int),
        forall|n: int|
            0 <= n < count ==> grid_cell(n, layout.0 as int) == (
                (#[trigger] layout.1[n]).0 as int,
                layout.1[n].1 as int,
            ),
{
    let r = row_size(count);
    proof {
        if count > 0 && count <= MAX_BALL_COUNT {
            assert(r >= 1) by (nonlinear_arith)
                requires
                    r * r >= count,
                    count > 0,
            ;
        }
    }
    (r, grid_slots(count, r))
}

/// The grid cells of `count` balls, in ball order, with `row_size` balls on
/// each row: the column advances with each ball and wraps to the start of
/// the next row once a row is full.
fn grid_slots(count: usize, row_size: u32) -> (slots: Vec<(usize, usize)>)
    requires
        count == 0 || row_size >= 1,
    ensures
        slots.len() == count,
        forall|n: int|
            0 <= n < count ==> grid_cell(n, row_size as int) == ((#[trigger] slots[n]).0 as int, slots[n].1 as int),
        forall|n: int|
            0 <= n < count ==> (#[trigger] slots[n]).0 == n % (row_size as int) && slots[n].1 == n / (
            row_size as int),
{
    let mut slots: Vec<(usize, usize)> = Vec::new();
    let mut column: usize = 0;
    let mut row: usize = 0;
    let mut c: u32 = 1;
    let ghost r = row_size as int;
    let mut n: usize = 0;
    while n < count
        invariant
            n <= count,
            r == row_size,
            count == 0 || r >= 1,
            slots.len() == n,
            c == column + 1,
            count > 0 ==> column < r,
            row <= n,
            n == row * r + column,
            forall|k: int| 0 <= k < n ==> grid_cell(k, r) == ((#[trigger] slots[k]).0 as int, slots[k].1 as int),
            forall|k: int| 0 <= k < n ==> (#[trigger] slots[k]).0 == k % r && slots[k].1 == k / r,
        decreases count - n,
    {
        proof {
            lemma_fundamental_div_mod_converse(n as int, r, row as int, column as int);
        }
        slots.push((column, row));
        column += 1;
        if c == row_size {
            let ghost full_row = row as int;
            c = 1;
            column = 0;
            row += 1;
            assert(n + 1 == row * r + column) by (nonlinear_arith)
                requires
                    n + 1 == full_row * r + r,
                    row == full_row + 1,
                    column == 0,
            ;
        } else {
            c += 1;
        }
        n += 1;
    }
    slots
}

/// The side of the grid is determined by the ball count: two sides that both
/// are the smallest to hold `count` balls are the same.
pub proof fn lemma_row_size_is_unique(count: nat, r1: nat, r2: nat)
    requires
        is_row_size(count, r1),
        is_row_size(count, r2),
    ensures
        r1 == r2,
{
    if r1 < r2 {
        assert(r1 * r1 <= (r2 - 1) * (r2 - 1)) by (nonlinear_arith)
            requires
                r1 <= r2 - 1,
                0 <= r1,
        ;
    } else if r2 < r1 {
        assert(r2 * r2 <= (r1 - 1) * (r1 - 1)) by (nonlinear_arith)
            requires
                r2 <= r1 - 1,
                0 <= r2,
        ;
    }
}

/// Every ball starts inside the grid: with `r` the row size for `count`
/// balls, each ball's column and row are below `r`.
pub proof fn lemma_grid_cells_fit(count: nat, r: nat, n: int)
    requires
        is_row_size(count, r),
        0 <= n < count,
    ensures
        0 <= n % (r as int) < r,
        0 <= n / (r as int) < r,
{
    assert(r >= 1) by (nonlinear_arith)
        requires
            r * r >= count,
            count > n >= 0,
    ;
    lemma_fundamental_div_mod(n, r as int);
    lemma_div_pos_is_pos(n, r as int);
    let q = n / (r as int);
    assert(q < r) by (nonlinear_arith)
        requires
            n == r * q + n % (r as int),
            0 <= n % (r as int),
            n < count <= r * r,
            r >= 1,
    ;
}

/// No two balls start in the same cell.
pub proof fn lemma_grid_cells_distinct(r: int, n1: int, n2: int)
    requires
        r >= 1,
        0 <= n1,
        0 <= n2,
        n1 != n2,
    ensures
        n1 % r != n2 % r || n1 / r != n2 / r,
{
    lemma_fundamental_div_mod(n1, r);
    lemma_fundamental_div_mod(n2, r);
}


/// The grid fills row by row: ball 0 is in the first cell, and the ball after
/// ball `n` sits in the next column of the same row, or, when `n` ends a row,
/// in the first column of the next row.
pub proof fn lemma_grid_fills_rows(r: int, n: int)
    requires
        r >= 1,
        n >= 0,
    ensures
        0int % r == 0 && 0int / r == 0,
        n % r + 1 < r ==> (n + 1) % r == n % r + 1 && (n + 1) / r == n / r,
        n % r + 1 == r ==> (n + 1) % r == 0 && (n + 1) / r == n / r + 1,
{
    lemma_fundamental_div_mod(n, r);
    lemma_small_mod(0, r as nat);
    lemma_basic_div(0, r);
    let q = n / r;
    let m = n % r;
    if m + 1 < r {
        lemma_fundamental_div_mod_converse(n + 1, r, q, m + 1);
    } else if m + 1 == r {
        assert(n + 1 == (q + 1) * r + 0) by (nonlinear_arith)
            requires
                n == r * q + m,
                m + 1 == r,
        ;
        lemma_fundamental_div_mod_converse(n + 1, r, q + 1, 0);
    }
}

} // verus!
