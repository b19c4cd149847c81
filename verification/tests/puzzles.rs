use hanjie::action::{handle_puzzle_select, PuzzleSelectAction, PuzzleSelectEvent, PuzzleSelectState};
use hanjie::puzzle::{
    clone_puzzle, transition_on_load, ActivePuzzle, Condition, Constraint, FolderEntry, GridSize,
    Line, Position, Puzzle,
};
use hanjie::state::AppState;
use hanjie::ui::select::{handle_ui_input, selectable_puzzles};

fn puzzle(name: &str, columns: i32, rows: i32) -> Puzzle {
    Puzzle {
        name: name.to_string(),
        grid: GridSize { columns, rows },
        constraints: vec![
            Constraint::Line(Line::Column(0), vec![Condition::Number(2), Condition::Wildcard]),
            Constraint::Position(Position { column: 1, row: 2 }, Condition::Number(1)),
        ],
    }
}

fn select(index: usize) -> PuzzleSelectEvent {
    PuzzleSelectEvent { action: PuzzleSelectAction::Select, state: PuzzleSelectState::Puzzle(index) }
}

fn folder() -> Vec<FolderEntry> {
    vec![
        FolderEntry::Other,
        FolderEntry::Puzzle(Some(puzzle("heart", 5, 5))),
        FolderEntry::Puzzle(None),
        FolderEntry::Puzzle(Some(puzzle("boat", 10, 8))),
    ]
}

#[test]
fn clone_keeps_every_field() {
    let p = puzzle("heart", 5, 6);
    let q = clone_puzzle(&p);
    assert_eq!(q.name, "heart");
    assert_eq!(q.grid, GridSize { columns: 5, rows: 6 });
    assert_eq!(q.constraints.len(), 2);
    match &q.constraints[0] {
        Constraint::Line(Line::Column(0), c) => assert_eq!(c, &vec![Condition::Number(2), Condition::Wildcard]),
        other => panic!("unexpected {:?}", other),
    }
    match &q.constraints[1] {
        Constraint::Position(pos, Condition::Number(1)) => assert_eq!(*pos, Position { column: 1, row: 2 }),
        other => panic!("unexpected {:?}", other),
    }
}

#[test]
fn selecting_a_puzzle_makes_it_active() {
    let f = folder();
    let mut active = ActivePuzzle::new();
    let mut next = None;
    handle_puzzle_select(&vec![select(3)], Some(&f), &mut active, &mut next);
    assert_eq!(active.puzzle.as_ref().map(|p| p.name.clone()), Some("boat".to_string()));
    assert_eq!(next, Some(AppState::Solve));
}

#[test]
fn selecting_another_asset_changes_nothing() {
    let f = folder();
    let mut active = ActivePuzzle { puzzle: Some(puzzle("old", 1, 1)) };
    let mut next = None;
    handle_puzzle_select(&vec![select(0)], Some(&f), &mut active, &mut next);
    assert_eq!(active.puzzle.as_ref().map(|p| p.name.clone()), Some("old".to_string()));
    assert_eq!(next, None);
}

#[test]
fn selecting_an_unloaded_puzzle_clears_the_active_one() {
    let f = folder();
    let mut active = ActivePuzzle { puzzle: Some(puzzle("old", 1, 1)) };
    let mut next = None;
    handle_puzzle_select(&vec![select(2)], Some(&f), &mut active, &mut next);
    assert!(active.puzzle.is_none());
    assert_eq!(next, Some(AppState::Solve));
}

#[test]
fn the_last_selection_of_a_frame_wins() {
    let f = folder();
    let mut active = ActivePuzzle::new();
    let mut next = None;
    handle_puzzle_select(&vec![select(1), select(0), select(3)], Some(&f), &mut active, &mut next);
    assert_eq!(active.puzzle.as_ref().map(|p| p.name.clone()), Some("boat".to_string()));
}

#[test]
fn selections_before_the_folder_loads_are_ignored() {
    let mut active = ActivePuzzle::new();
    let mut next = Some(AppState::Load);
    handle_puzzle_select(&vec![select(7)], None, &mut active, &mut next);
    assert!(active.puzzle.is_none());
    assert_eq!(next, Some(AppState::Load));
}

#[test]
fn leaving_the_solve_screen_unsets_the_puzzle() {
    let mut active = ActivePuzzle { puzzle: Some(puzzle("heart", 5, 5)) };
    active.unset_active_puzzle();
    assert!(active.puzzle.is_none());
}

#[test]
fn only_loaded_puzzles_are_offered() {
    let offered = selectable_puzzles(&folder());
    let got: Vec<(String, usize)> = offered.iter().map(|p| (p.name.clone(), p.index)).collect();
    assert_eq!(got, vec![("heart".to_string(), 1), ("boat".to_string(), 3)]);
}

#[test]
fn an_offered_puzzle_selects_itself() {
    let f = folder();
    for offered in selectable_puzzles(&f) {
        let mut active = ActivePuzzle::new();
        let mut next = None;
        handle_puzzle_select(&vec![select(offered.index)], Some(&f), &mut active, &mut next);
        assert_eq!(active.puzzle.map(|p| p.name), Some(offered.name));
        assert_eq!(next, Some(AppState::Solve));
    }
}

#[test]
fn pressing_a_button_selects_its_puzzles() {
    let events = handle_ui_input(true, &vec![None, Some(3), Some(1)]);
    assert_eq!(events, vec![select(3), select(1)]);
    assert!(handle_ui_input(false, &vec![Some(3)]).is_empty());
}

#[test]
fn loading_moves_to_selection_once_the_folder_is_loaded() {
    assert_eq!(transition_on_load(&vec![false, true, false]), Some(AppState::Select));
    assert_eq!(transition_on_load(&vec![false, false]), None);
    assert_eq!(transition_on_load(&vec![]), None);
}
