//! The grid of the puzzle being solved.
use vstd::prelude::*;

use crate::grid::{extent, grid_positions, nth_position};
use crate::layout::position::{Alignable, Alignment, HorizontalAlign, Reference as AlignReference, VerticalAlign};
use crate::layout::size::{AspectRatio, Constraint, Reference, Resizable, ResizableField};
use crate::puzzle::{GridSize, Puzzle};
use crate::solve::cell::{cell_bundle, CellBundle};

verus! {

/// The layout of the grid: in the bottom right corner of its parent, 60% of
/// its width and height, with the grid's own aspect ratio.
#[derive(Clone, Copy, Debug, PartialEq, Eq, Structural)]
pub struct GridBundle {
    pub alignable: Alignable,
    pub resizable: Resizable,
    pub size: GridSize,
}

pub open spec fn grid_bundle(grid: GridSize) -> GridBundle {
    GridBundle {
        alignable: Alignable {
            reference: AlignReference::Parent,
            alignment: Alignment::Standard(VerticalAlign::Bottom, HorizontalAlign::Right),
        },
        resizable: Resizable {
            width: ResizableField { constraint: Constraint::Pct(60), reference: Reference::Parent },
            height: ResizableField { constraint: Constraint::Pct(60), reference: Reference::Parent },
            aspect_ratio: Some(AspectRatio { width: grid.columns, height: grid.rows }),
        },
        size: grid,
    }
}

/// The grid follows its parent, the root of the solve screen: both of its
/// dimensions take the same 60% of the parent's, it keeps the puzzle's
/// shape (`columns : rows`), and it sits in the parent's bottom right
/// corner.
pub proof fn grid_follows_its_parent(grid: GridSize)
    ensures
        grid_bundle(grid).resizable.width == grid_bundle(grid).resizable.height,
        grid_bundle(grid).resizable.width.reference == Reference::Parent,
        grid_bundle(grid).resizable.width.constraint == Constraint::Pct(60),
        grid_bundle(grid).resizable.aspect_ratio == Some(
            AspectRatio { width: grid.columns, height: grid.rows },
        ),
        grid_bundle(grid).alignable.reference == AlignReference::Parent,
        grid_bundle(grid).alignable.alignment == Alignment::Standard(
            VerticalAlign::Bottom,
            HorizontalAlign::Right,
        ),
        grid_bundle(grid).size == grid,
{
}

impl GridBundle {
    pub fn new(puzzle: &Puzzle) -> (res: GridBundle)
        ensures
            res == grid_bundle(puzzle.grid),
    {
        let grid_size = GridSize { columns: puzzle.grid.columns, rows: puzzle.grid.rows };
        GridBundle {
            alignable: Alignable::new(
                AlignReference::Parent,
                Alignment::Standard(VerticalAlign::Bottom, HorizontalAlign::Right),
            ),
            resizable: Resizable::new(
                ResizableField { constraint: Constraint::Pct(60), reference: Reference::Parent },
                ResizableField { constraint: Constraint::Pct(60), reference: Reference::Parent },
                Some(AspectRatio { width: grid_size.columns, height: grid_size.rows }),
            ),
            size: grid_size,
        }
    }
}

/// The grid of a puzzle and its cells, column by column and, within a
/// column, row by row.
pub fn spawn(puzzle: &Puzzle) -> (res: (GridBundle, Vec<CellBundle>))
    requires
        puzzle.grid.columns == i32::MAX ==> puzzle.grid.rows <= 0,
        puzzle.grid.rows == i32::MAX ==> puzzle.grid.columns <= 0,
        extent(puzzle.grid.columns) * extent(puzzle.grid.rows) <= usize::MAX,
    ensures
        res.0 == grid_bundle(puzzle.grid),
        res.1.len() == extent(puzzle.grid.columns) * extent(puzzle.grid.rows),
        forall|k: int|
            0 <= k < res.1.len() ==> #[trigger] res.1@[k] == cell_bundle(
                nth_position(k, extent(puzzle.grid.rows)).row,
                nth_position(k, extent(puzzle.grid.rows)).column,
                puzzle.grid,
            ),
{
    let grid = GridBundle::new(puzzle);
    let positions = grid_positions(puzzle.grid.columns, puzzle.grid.rows);
    let mut cells: Vec<CellBundle> = Vec::new();
    let n = positions.len();
    proof {
        let c = extent(puzzle.grid.columns);
        let r = extent(puzzle.grid.rows);
        if n > 0 {
            assert(c > 0 && r > 0) by (nonlinear_arith)
                requires
                    c >= 0,
                    r >= 0,
                    c * r == n,
                    n > 0,
            ;
        }
    }
    let mut k: usize = 0;
    while k < n
        invariant
            k <= n,
            n == positions.len(),
            n > 0 ==> puzzle.grid.columns < i32::MAX && puzzle.grid.rows < i32::MAX,
            forall|j: int|
                0 <= j < positions.len() ==> #[trigger] positions@[j] == nth_position(
                    j,
                    extent(puzzle.grid.rows),
                ),
            cells.len() == k,
            forall|j: int|
                0 <= j < k ==> #[trigger] cells@[j] == cell_bundle(
                    positions@[j].row,
                    positions@[j].column,
                    puzzle.grid,
                ),
        decreases n - k,
    {
        let p = positions[k];
        cells.push(CellBundle::new(p.row, p.column, &puzzle.grid));
        k = k + 1;
    }
    (grid, cells)
}

} // verus!
