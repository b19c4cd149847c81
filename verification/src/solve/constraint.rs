//! The clue elements beside the grid.
use vstd::prelude::*;

use crate::layout::position::{Alignable, Alignment, Reference as AlignReference};
use crate::layout::size::{Constraint as SizeConstraint, EntityReference, Reference, Resizable, ResizableField};
use crate::puzzle::{Constraint, GridSize, Line};

verus! {

/// A clue element: the clue and its layout.
#[derive(Debug)]
pub struct ConstraintBundle {
    pub constraint: Constraint,
    pub alignable: Alignable,
    pub resizable: Resizable,
}

/// The dimension of a clue element that runs across its line spans the gap
/// between the grid and the root element (its parent and grandparent).
pub open spec fn across_gap() -> ResizableField {
    ResizableField {
        constraint: SizeConstraint::Fill,
        reference: Reference::Intersect(EntityReference::Grandparent, EntityReference::Parent),
    }
}

/// The sizing of the clues of `line`: one line's share of the grid along
/// the line, the gap between grid and root across it.
pub open spec fn line_resizable(line: Line, size: GridSize) -> Resizable {
    match line {
        Line::Column(_) => Resizable {
            width: ResizableField {
                constraint: SizeConstraint::Fr(size.columns),
                reference: Reference::Parent,
            },
            height: across_gap(),
            aspect_ratio: None,
        },
        Line::Row(_) => Resizable {
            width: across_gap(),
            height: ResizableField {
                constraint: SizeConstraint::Fr(size.rows),
                reference: Reference::Parent,
            },
            aspect_ratio: None,
        },
    }
}

/// Column and row clues are laid out alike with the axes swapped: a column
/// clue is one column's share of the grid's width (a `columns`-th of the
/// parent) and fills the gap between the grid and the root (its parent and
/// grandparent) vertically; a row clue is one row's share of the grid's
/// height and fills that gap horizontally. Neither has a fixed aspect ratio.
pub proof fn clue_layout(column: i32, row: i32, size: GridSize)
    ensures
        line_resizable(Line::Column(column), size).width == (ResizableField {
            constraint: SizeConstraint::Fr(size.columns),
            reference: Reference::Parent,
        }),
        line_resizable(Line::Column(column), size).height == (ResizableField {
            constraint: SizeConstraint::Fill,
            reference: Reference::Intersect(EntityReference::Grandparent, EntityReference::Parent),
        }),
        line_resizable(Line::Row(row), size).height == (ResizableField {
            constraint: SizeConstraint::Fr(size.rows),
            reference: Reference::Parent,
        }),
        line_resizable(Line::Row(row), size).width == (ResizableField {
            constraint: SizeConstraint::Fill,
            reference: Reference::Intersect(EntityReference::Grandparent, EntityReference::Parent),
        }),
        line_resizable(Line::Row(row), size).width == line_resizable(
            Line::Column(column),
            GridSize { columns: size.rows, rows: size.columns },
        ).height,
        line_resizable(Line::Row(row), size).height == line_resizable(
            Line::Column(column),
            GridSize { columns: size.rows, rows: size.columns },
        ).width,
        line_resizable(Line::Row(row), size).aspect_ratio is None,
        line_resizable(Line::Column(column), size).aspect_ratio is None,
{
}

impl ConstraintBundle {
    /// The element for the clues of a line, aligned beside that line of the
    /// grid. Clues pinned to a single cell have no layout.
    pub fn new(constraint: Constraint, size: &GridSize) -> (res: Self)
        requires
            constraint is Line,
        ensures
            res.constraint@ == constraint@,
            ({
                let line = constraint->Line_0;
                &&& res.alignable == (Alignable {
                    reference: AlignReference::Parent,
                    alignment: Alignment::Line(*size, line),
                })
                &&& res.resizable == line_resizable(line, *size)
            }),
    {
        let line = match &constraint {
            Constraint::Line(line, _) => *line,
            Constraint::Position(_, _) => vstd::pervasive::unreached(),
        };
        let alignable = Alignable::new(AlignReference::Parent, Alignment::Line(*size, line));
        let gap = ResizableField {
            constraint: SizeConstraint::Fill,
            reference: Reference::Intersect(EntityReference::Grandparent, EntityReference::Parent),
        };
        let resizable = match line {
            Line::Column(_) => Resizable::new(
                ResizableField { constraint: SizeConstraint::Fr(size.columns), reference: Reference::Parent },
                gap,
                None,
            ),
            Line::Row(_) => Resizable::new(
                gap,
                ResizableField { constraint: SizeConstraint::Fr(size.rows), reference: Reference::Parent },
                None,
            ),
        };
        Self { constraint, alignable, resizable }
    }
}

} // verus!
