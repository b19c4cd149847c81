use hanjie::action::PuzzleSolveAction;
use hanjie::input::{handle_puzzle_solve_key_press, map_click_to_in_game_action};
use hanjie::state::AppState;
use hanjie::ui::{button_label, outline_hovered_button, Interaction, OutlineChange};

#[test]
fn left_click_toggles_and_shift_left_click_marks() {
    assert_eq!(map_click_to_in_game_action(true, false, false, false), Some(PuzzleSolveAction::Toggle));
    assert_eq!(map_click_to_in_game_action(true, false, false, true), Some(PuzzleSolveAction::Mark));
    assert_eq!(map_click_to_in_game_action(true, true, true, false), Some(PuzzleSolveAction::Toggle));
}

#[test]
fn middle_click_marks_and_right_click_crosses_out() {
    assert_eq!(map_click_to_in_game_action(false, true, true, false), Some(PuzzleSolveAction::Mark));
    assert_eq!(map_click_to_in_game_action(false, true, false, true), Some(PuzzleSolveAction::Mark));
    assert_eq!(map_click_to_in_game_action(false, false, true, true), Some(PuzzleSolveAction::CrossOut));
    assert_eq!(map_click_to_in_game_action(false, false, false, true), None);
}

#[test]
fn escape_returns_to_selection() {
    assert_eq!(handle_puzzle_solve_key_press(true), Some(AppState::Select));
    assert_eq!(handle_puzzle_solve_key_press(false), None);
}

#[test]
fn button_labels_follow_interaction() {
    assert_eq!(button_label(Interaction::Pressed), "Press");
    assert_eq!(button_label(Interaction::Hovered), "Hover");
    assert_eq!(button_label(Interaction::Idle), "Button");
}

#[test]
fn outline_shows_only_while_hovered() {
    assert_eq!(outline_hovered_button(Interaction::Hovered, true), OutlineChange::Recolor(true));
    assert_eq!(outline_hovered_button(Interaction::Pressed, true), OutlineChange::Recolor(false));
    assert_eq!(outline_hovered_button(Interaction::Idle, true), OutlineChange::Recolor(false));
    assert_eq!(outline_hovered_button(Interaction::Hovered, false), OutlineChange::InsertHidden);
}
