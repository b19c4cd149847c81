//! The order in which the cells of a grid are created.
use vstd::prelude::*;

use crate::puzzle::Position;

verus! {

/// `n`, or 0 when `n` is negative: how many columns or rows a dimension
/// gives.
pub open spec fn extent(n: i32) -> int {
    if n < 0 {
        0
    } else {
        n as int
    }
}

/// The position of the `k`-th cell created for a grid with `rows` rows,
/// going through the columns in order and down each column row by row.
pub open spec fn nth_position(k: int, rows: int) -> Position {
    Position { column: (k / rows) as i32, row: (k % rows) as i32 }
}

/// The positions of all cells of a `columns` by `rows` grid, column by
/// column and, within a column, row by row.
pub fn grid_positions(columns: i32, rows: i32) -> (res: Vec<Position>)
    requires
        extent(columns) * extent(rows) <= usize::MAX,
    ensures
        res.len() == extent(columns) * extent(rows),
        forall|k: int| 0 <= k < res.len() ==> #[trigger] res@[k] == nth_position(k, extent(rows)),
{
    let ghost r = extent(rows);
    let ghost c = extent(columns);
    let mut res: Vec<Position> = Vec::new();
    let mut column: i32 = 0;
    while column < columns
        invariant
            0 <= column,
            column as int <= c,
            c == extent(columns),
            r == extent(rows),
            c * r <= usize::MAX,
            res.len() == column * r,
            forall|k: int| 0 <= k < res.len() ==> #[trigger] res@[k] == nth_position(k, r),
        decreases columns - column,
    {
        let mut row: i32 = 0;
        while row < rows
            invariant
                0 <= row,
                row as int <= r,
                0 <= column < columns,
                column as int <= c,
                c == extent(columns),
                r == extent(rows),
                c * r <= usize::MAX,
                res.len() == column * r + row,
                forall|k: int| 0 <= k < res.len() ==> #[trigger] res@[k] == nth_position(k, r),
            decreases rows - row,
        {
            proof {
                let k = column * r + row;
                vstd::arithmetic::div_mod::lemma_fundamental_div_mod_converse(
                    k,
                    r,
                    column as int,
                    row as int,
                );
                assert(k + 1 <= c * r) by (nonlinear_arith)
                    requires
                        0 <= row < r,
                        0 <= column < c,
                        k == column * r + row,
                ;
            }
            res.push(Position { column, row });
            row = row + 1;
        }
        assert(res.len() == (column + 1) * r) by (nonlinear_arith)
            requires
                res.len() == column * r + row,
                row == r,
        ;
        column = column + 1;
    }
    proof {
        if columns <= 0 {
            assert(c == 0);
        }
    }
    res
}

/// Every cell of the grid is created exactly once: the `k`-th position is
/// inside the grid, and each position inside the grid is the `k`-th one for
/// exactly one `k`.
pub proof fn grid_positions_cover_each_cell_once(columns: i32, rows: i32, column: i32, row: i32)
    requires
        0 <= column < columns,
        0 <= row < rows,
    ensures
        nth_position(column * extent(rows) + row, extent(rows)) == (Position { column, row }),
        0 <= column * extent(rows) + row < extent(columns) * extent(rows),
        forall|k: int|
            0 <= k < extent(columns) * extent(rows) && #[trigger] nth_position(k, extent(rows)) == (
            Position { column, row }) ==> k == column * extent(rows) + row,
{
    let r = extent(rows);
    let c = extent(columns);
    let k0 = column * r + row;
    vstd::arithmetic::div_mod::lemma_fundamental_div_mod_converse(k0, r, column as int, row as int);
    assert(0 <= k0 < c * r) by (nonlinear_arith)
        requires
            0 <= row < r,
            0 <= column < c,
            k0 == column * r + row,
    ;
    assert forall|k: int|
        0 <= k < c * r && #[trigger] nth_position(k, r) == (Position { column, row }) implies k
        == k0 by {
        vstd::arithmetic::div_mod::lemma_fundamental_div_mod(k, r);
        assert(0 <= k / r < c) by (nonlinear_arith)
            requires
                0 <= k < c * r,
                r > 0,
        ;
        assert(0 <= k % r < r) by (nonlinear_arith)
            requires
                r > 0,
        ;
        assert((k / r) as i32 == column && (k % r) as i32 == row);
        assert(k == k0) by (nonlinear_arith)
            requires
                k == r * (k / r) + k % r,
                k / r == column,
                k % r == row,
                k0 == column * r + row,
        ;
    }
}

} // verus!
