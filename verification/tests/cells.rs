use hanjie::action::{CellEvent, PuzzleSolveAction, PuzzleSolveEvent, PuzzleSolveState};
use hanjie::action::{handle_puzzle_solve, hit_cells};
use hanjie::game::cell::{
    apply_action_to_cell as apply_board_action, handle_cell_action as handle_board_action,
    CellBundle as BoardCellBundle, Location,
};
use hanjie::game::{get_action_from_mouse_click, handle_world_action, Action, CellActionEvent};
use hanjie::solve::cell::{apply_action_to_cell, handle_cell_action, Cell, CellState};

fn cell(state: CellState) -> Cell {
    Cell { state }
}

#[test]
fn toggle_fills_and_clears() {
    let mut c = Cell::default();
    assert_eq!(c.state, CellState::Cleared);
    apply_action_to_cell(&PuzzleSolveAction::Toggle, &mut c);
    assert_eq!(c.state, CellState::Filled);
    apply_action_to_cell(&PuzzleSolveAction::Toggle, &mut c);
    assert_eq!(c.state, CellState::Cleared);
}

#[test]
fn toggle_fills_marked_and_crossed_out_cells() {
    for s in [CellState::Marked, CellState::CrossedOut] {
        let mut c = cell(s);
        apply_action_to_cell(&PuzzleSolveAction::Toggle, &mut c);
        assert_eq!(c.state, CellState::Filled);
    }
}

#[test]
fn mark_and_cross_out_overwrite_any_state() {
    for s in [CellState::Cleared, CellState::Filled, CellState::CrossedOut, CellState::Marked] {
        let mut c = cell(s);
        apply_action_to_cell(&PuzzleSolveAction::Mark, &mut c);
        assert_eq!(c.state, CellState::Marked);
        apply_action_to_cell(&PuzzleSolveAction::Mark, &mut c);
        assert_eq!(c.state, CellState::Marked);
        let mut d = cell(s);
        apply_action_to_cell(&PuzzleSolveAction::CrossOut, &mut d);
        assert_eq!(d.state, CellState::CrossedOut);
    }
}

#[test]
fn board_actions_match_solve_actions() {
    let pairs = [
        (Action::Toggle, PuzzleSolveAction::Toggle),
        (Action::Mark, PuzzleSolveAction::Mark),
        (Action::CrossOut, PuzzleSolveAction::CrossOut),
    ];
    for (a, p) in pairs {
        for s in [CellState::Cleared, CellState::Filled, CellState::CrossedOut, CellState::Marked] {
            let mut x = cell(s);
            let mut y = cell(s);
            apply_board_action(a, &mut x);
            apply_action_to_cell(&p, &mut y);
            assert_eq!(x, y);
        }
    }
}

#[test]
fn new_board_cell_is_cleared_at_its_location() {
    let b = BoardCellBundle::new(3, 4);
    assert_eq!(b.location, Location { column: 3, row: 4 });
    assert_eq!(b.cell.state, CellState::Cleared);
}

#[test]
fn cell_events_change_only_their_cells() {
    let mut board = vec![(10u64, Cell::default()), (11, Cell::default()), (12, cell(CellState::Marked))];
    let events: Vec<CellEvent<()>> = vec![
        CellEvent { action: PuzzleSolveAction::Toggle, state: PuzzleSolveState::Entity(10) },
        CellEvent { action: PuzzleSolveAction::CrossOut, state: PuzzleSolveState::Entity(12) },
        CellEvent { action: PuzzleSolveAction::Mark, state: PuzzleSolveState::WorldPosition(()) },
        CellEvent { action: PuzzleSolveAction::Toggle, state: PuzzleSolveState::Entity(99) },
        CellEvent { action: PuzzleSolveAction::Toggle, state: PuzzleSolveState::Entity(10) },
        CellEvent { action: PuzzleSolveAction::Toggle, state: PuzzleSolveState::Entity(10) },
    ];
    handle_cell_action(&events, &mut board);
    assert_eq!(board[0], (10, cell(CellState::Filled)));
    assert_eq!(board[1], (11, cell(CellState::Cleared)));
    assert_eq!(board[2], (12, cell(CellState::CrossedOut)));
}

#[test]
fn hit_cells_lists_flagged_indices() {
    assert_eq!(hit_cells(&vec![false, true, true, false, true]), vec![1, 2, 4]);
    assert_eq!(hit_cells(&vec![]), Vec::<usize>::new());
}

#[test]
fn clicks_reach_the_cells_they_fall_inside() {
    let events = vec![
        PuzzleSolveEvent { action: PuzzleSolveAction::Toggle, state: PuzzleSolveState::WorldPosition((1.0f32, 2.0f32)) },
        PuzzleSolveEvent { action: PuzzleSolveAction::Mark, state: PuzzleSolveState::Entity(5) },
        PuzzleSolveEvent { action: PuzzleSolveAction::CrossOut, state: PuzzleSolveState::WorldPosition((9.0f32, 9.0f32)) },
    ];
    let cells = vec![100u64, 101, 102];
    let inside = vec![vec![false, true, false], vec![], vec![true, false, true]];
    let out = handle_puzzle_solve(&events, &cells, &inside);
    let got: Vec<(PuzzleSolveAction, u64)> = out
        .iter()
        .map(|e| match e.state {
            PuzzleSolveState::Entity(x) => (e.action, x),
            PuzzleSolveState::WorldPosition(_) => panic!("cell event without a cell"),
        })
        .collect();
    assert_eq!(
        got,
        vec![
            (PuzzleSolveAction::Toggle, 101),
            (PuzzleSolveAction::CrossOut, 100),
            (PuzzleSolveAction::CrossOut, 102)
        ]
    );
}

#[test]
fn a_click_outside_every_cell_changes_nothing() {
    let events = vec![PuzzleSolveEvent { action: PuzzleSolveAction::Toggle, state: PuzzleSolveState::WorldPosition(()) }];
    let out = handle_puzzle_solve(&events, &vec![1u64, 2], &vec![vec![false, false]]);
    assert!(out.is_empty());
}

#[test]
fn mouse_buttons_map_to_board_actions() {
    assert_eq!(get_action_from_mouse_click(true, true, true), Some(Action::Toggle));
    assert_eq!(get_action_from_mouse_click(false, true, true), Some(Action::Mark));
    assert_eq!(get_action_from_mouse_click(false, false, true), Some(Action::CrossOut));
    assert_eq!(get_action_from_mouse_click(false, false, false), None);
}

#[test]
fn world_actions_reach_cells_under_the_pointer() {
    let out = handle_world_action(
        &vec![Action::Mark, Action::Toggle],
        &vec![7u64, 8],
        &vec![vec![true, true], vec![false, true]],
    );
    assert_eq!(
        out,
        vec![
            CellActionEvent { entity: 7, action: Action::Mark },
            CellActionEvent { entity: 8, action: Action::Mark },
            CellActionEvent { entity: 8, action: Action::Toggle },
        ]
    );
}

#[test]
fn a_toggle_click_flips_exactly_the_cell_under_it() {
    let mut board = vec![(1u64, Cell::default()), (2, cell(CellState::Filled)), (3, cell(CellState::Marked))];
    let cells: Vec<u64> = board.iter().map(|(id, _)| *id).collect();
    let clicks = vec![PuzzleSolveEvent { action: PuzzleSolveAction::Toggle, state: PuzzleSolveState::WorldPosition(()) }];
    let events = handle_puzzle_solve(&clicks, &cells, &vec![vec![false, true, false]]);
    handle_cell_action(&events, &mut board);
    assert_eq!(board, vec![(1, Cell::default()), (2, cell(CellState::Cleared)), (3, cell(CellState::Marked))]);
}

#[test]
fn board_events_change_their_cells_in_order() {
    let mut board = vec![(7u64, Cell::default()), (8, Cell::default())];
    let events = vec![
        CellActionEvent { entity: 8, action: Action::Mark },
        CellActionEvent { entity: 8, action: Action::Toggle },
        CellActionEvent { entity: 9, action: Action::CrossOut },
    ];
    handle_board_action(&events, &mut board);
    assert_eq!(board, vec![(7, Cell::default()), (8, cell(CellState::Filled))]);
}
