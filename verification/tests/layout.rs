use hanjie::grid::grid_positions;
use hanjie::layout::position::{
    Align, Alignable, Alignment, HorizontalAlign, Reference as AlignReference, Spacing, VerticalAlign,
};
use hanjie::layout::size::{AspectRatio, Constraint, EntityReference, Reference, Resizable, ResizableField};
use hanjie::puzzle::{Condition, Constraint as Clue, GridSize, Line, Position, Puzzle};
use hanjie::solve::cell::{CellBundle, CellState};
use hanjie::solve::constraint::ConstraintBundle;
use hanjie::solve::grid::{spawn, GridBundle};
use hanjie::solve::SolvePuzzleBundle;

#[test]
fn vertical_alignment_grows_upwards() {
    assert_eq!(Align::from(VerticalAlign::Top), Align::End);
    assert_eq!(Align::from(VerticalAlign::Center), Align::Center);
    assert_eq!(Align::from(VerticalAlign::Bottom), Align::Start);
}

#[test]
fn horizontal_alignment_grows_rightwards() {
    assert_eq!(Align::from(HorizontalAlign::Left), Align::Start);
    assert_eq!(Align::from(HorizontalAlign::Center), Align::Center);
    assert_eq!(Align::from(HorizontalAlign::Right), Align::End);
}

#[test]
fn grid_positions_go_column_by_column() {
    let p = grid_positions(2, 3);
    let got: Vec<(i32, i32)> = p.iter().map(|p| (p.column, p.row)).collect();
    assert_eq!(got, vec![(0, 0), (0, 1), (0, 2), (1, 0), (1, 1), (1, 2)]);
}

#[test]
fn empty_or_negative_grids_have_no_cells() {
    assert!(grid_positions(0, 4).is_empty());
    assert!(grid_positions(4, 0).is_empty());
    assert!(grid_positions(-2, 3).is_empty());
    assert!(grid_positions(3, -1).is_empty());
}

#[test]
fn five_by_five_grid_has_each_cell_once() {
    let p = grid_positions(5, 5);
    assert_eq!(p.len(), 25);
    for c in 0..5 {
        for r in 0..5 {
            assert_eq!(p.iter().filter(|q| **q == Position { column: c, row: r }).count(), 1);
        }
    }
}

#[test]
fn cell_layout_follows_the_grid() {
    let size = GridSize { columns: 4, rows: 3 };
    let b = CellBundle::new(2, 1, &size);
    assert_eq!(b.position, Position { column: 1, row: 2 });
    assert_eq!(b.cell.state, CellState::Cleared);
    assert_eq!(
        b.alignable,
        Alignable {
            reference: AlignReference::Parent,
            alignment: Alignment::Grid(size, Position { column: 1, row: 2 }, Some(Spacing::Even)),
        }
    );
    assert_eq!(b.resizable.width, ResizableField { constraint: Constraint::Fr(5), reference: Reference::Parent });
    assert_eq!(b.resizable.height, ResizableField { constraint: Constraint::Fr(4), reference: Reference::Parent });
    assert_eq!(b.resizable.aspect_ratio, Some(AspectRatio { width: 1, height: 1 }));
}

fn puzzle(columns: i32, rows: i32) -> Puzzle {
    Puzzle { name: "p".to_string(), grid: GridSize { columns, rows }, constraints: vec![] }
}

#[test]
fn grid_layout_sits_bottom_right_with_the_grid_aspect() {
    let g = GridBundle::new(&puzzle(10, 8));
    assert_eq!(g.size, GridSize { columns: 10, rows: 8 });
    assert_eq!(
        g.alignable.alignment,
        Alignment::Standard(VerticalAlign::Bottom, HorizontalAlign::Right)
    );
    assert_eq!(g.resizable.width.constraint, Constraint::Pct(60));
    assert_eq!(g.resizable.height.constraint, Constraint::Pct(60));
    assert_eq!(g.resizable.aspect_ratio, Some(AspectRatio { width: 10, height: 8 }));
}

#[test]
fn spawn_creates_every_cell_of_the_grid() {
    let (grid, cells) = spawn(&puzzle(3, 2));
    assert_eq!(grid.size, GridSize { columns: 3, rows: 2 });
    let got: Vec<(i32, i32)> = cells.iter().map(|c| (c.position.column, c.position.row)).collect();
    assert_eq!(got, vec![(0, 0), (0, 1), (1, 0), (1, 1), (2, 0), (2, 1)]);
    assert!(cells.iter().all(|c| c.resizable.width.constraint == Constraint::Fr(4)));
    assert!(cells.iter().all(|c| c.resizable.height.constraint == Constraint::Fr(3)));
}

#[test]
fn column_clues_share_the_grid_width_and_span_the_gap() {
    let size = GridSize { columns: 6, rows: 4 };
    let b = ConstraintBundle::new(Clue::Line(Line::Column(2), vec![Condition::Number(3)]), &size);
    assert_eq!(b.alignable.alignment, Alignment::Line(size, Line::Column(2)));
    assert_eq!(b.resizable.width, ResizableField { constraint: Constraint::Fr(6), reference: Reference::Parent });
    assert_eq!(
        b.resizable.height,
        ResizableField {
            constraint: Constraint::Fill,
            reference: Reference::Intersect(EntityReference::Grandparent, EntityReference::Parent),
        }
    );
    assert_eq!(b.resizable.aspect_ratio, None);
}

#[test]
fn row_clues_share_the_grid_height_and_span_the_gap() {
    let size = GridSize { columns: 6, rows: 4 };
    let b = ConstraintBundle::new(Clue::Line(Line::Row(1), vec![]), &size);
    assert_eq!(b.resizable.height, ResizableField { constraint: Constraint::Fr(4), reference: Reference::Parent });
    assert_eq!(b.resizable.width.constraint, Constraint::Fill);
}

#[test]
fn solve_root_fills_the_window_height() {
    let b = SolvePuzzleBundle::new();
    assert_eq!(
        b.resizable,
        Resizable {
            width: ResizableField { constraint: Constraint::Pct(60), reference: Reference::Window },
            height: ResizableField { constraint: Constraint::Fill, reference: Reference::Window },
            aspect_ratio: None,
        }
    );
}

#[test]
fn entity_references_name_ancestors() {
    let ancestors = vec![20u64, 30, 40];
    assert_eq!(EntityReference::Parent.entity(&ancestors), Some(20));
    assert_eq!(EntityReference::Grandparent.entity(&ancestors), Some(30));
    assert_eq!(EntityReference::Grandparent.entity(&vec![20u64]), None);
    assert_eq!(EntityReference::Parent.entity(&vec![]), None);
}

#[test]
fn intersection_partner_is_the_other_end() {
    let field = ResizableField {
        constraint: Constraint::Fill,
        reference: Reference::Intersect(EntityReference::Grandparent, EntityReference::Parent),
    };
    let ancestors = vec![20u64, 30];
    assert_eq!(field.intersect_partner(20, &ancestors), Some(30));
    assert_eq!(field.intersect_partner(30, &ancestors), Some(20));
    assert_eq!(field.intersect_partner(99, &ancestors), None);
    let parent_field = ResizableField { constraint: Constraint::Fill, reference: Reference::Parent };
    assert_eq!(parent_field.intersect_partner(20, &ancestors), None);
}

#[test]
fn a_grid_with_no_rows_spawns_no_cells_whatever_its_width() {
    let (grid, cells) = spawn(&puzzle(i32::MAX, 0));
    assert_eq!(grid.size, GridSize { columns: i32::MAX, rows: 0 });
    assert!(cells.is_empty());
    let (_, cells) = spawn(&puzzle(0, i32::MAX));
    assert!(cells.is_empty());
}
