//! What the player's mouse and keyboard input asks for on the solve screen.
use vstd::prelude::*;

use crate::action::PuzzleSolveAction;
use crate::state::AppState;

verus! {

/// The action a click asks for, from the buttons pressed in this frame and
/// whether a shift key is held: left toggles the cell (marks it with
/// shift), middle marks it, right crosses it out; the left button wins
/// over the middle one, which wins over the right one.
pub open spec fn click_action(
    left_just_pressed: bool,
    middle_just_pressed: bool,
    right_just_pressed: bool,
    shift_pressed: bool,
) -> Option<PuzzleSolveAction> {
    if left_just_pressed {
        if shift_pressed {
            Some(PuzzleSolveAction::Mark)
        } else {
            Some(PuzzleSolveAction::Toggle)
        }
    } else if middle_just_pressed {
        Some(PuzzleSolveAction::Mark)
    } else if right_just_pressed {
        Some(PuzzleSolveAction::CrossOut)
    } else {
        None
    }
}

pub fn map_click_to_in_game_action(
    left_just_pressed: bool,
    middle_just_pressed: bool,
    right_just_pressed: bool,
    shift_pressed: bool,
) -> (res: Option<PuzzleSolveAction>)
    ensures
        res == click_action(left_just_pressed, middle_just_pressed, right_just_pressed, shift_pressed),
{
    if left_just_pressed {
        if shift_pressed {
            Some(PuzzleSolveAction::Mark)
        } else {
            Some(PuzzleSolveAction::Toggle)
        }
    } else if middle_just_pressed {
        Some(PuzzleSolveAction::Mark)
    } else if right_just_pressed {
        Some(PuzzleSolveAction::CrossOut)
    } else {
        None
    }
}

/// What each button does: a click with no button gives no action and a click
/// with any gives one; the left button toggles, or marks while shift is held,
/// whatever else is pressed; without it the middle button marks; with
/// neither, the right button crosses out. Shift changes only what the left
/// button does.
pub proof fn click_actions(left: bool, middle: bool, right: bool, shift: bool)
    ensures
        click_action(left, middle, right, shift) is None <==> !left && !middle && !right,
        left && !shift ==> click_action(left, middle, right, shift) == Some(
            PuzzleSolveAction::Toggle,
        ),
        left && shift ==> click_action(left, middle, right, shift) == Some(PuzzleSolveAction::Mark),
        !left && middle ==> click_action(left, middle, right, shift) == Some(
            PuzzleSolveAction::Mark,
        ),
        !left && !middle && right ==> click_action(left, middle, right, shift) == Some(
            PuzzleSolveAction::CrossOut,
        ),
        !left ==> click_action(left, middle, right, true) == click_action(
            left,
            middle,
            right,
            false,
        ),
{
}

/// Escape leaves the puzzle for the selection screen.
pub fn handle_puzzle_solve_key_press(escape_just_pressed: bool) -> (res: Option<AppState>)
    ensures
        res == (if escape_just_pressed {
            Some(AppState::Select)
        } else {
            None
        }),
{
    if escape_just_pressed {
        Some(AppState::Select)
    } else {
        None
    }
}

} // verus!
