//! Cells of the first version of the board.
use vstd::prelude::*;

use crate::action::PuzzleSolveAction;
use crate::game::{Action, CellActionEvent};
use crate::layout::EntityId;
pub use crate::solve::cell::{next_cell_state, step_board, Cell, CellState};

verus! {

/// A cell's place on the board.
#[derive(Debug, Copy, Clone, PartialEq, Eq, Structural)]
pub struct Location {
    pub column: i32,
    pub row: i32,
}

/// A new cell: at its location, cleared.
#[derive(Debug, Copy, Clone, PartialEq, Eq, Structural)]
pub struct CellBundle {
    pub location: Location,
    pub cell: Cell,
}

impl CellBundle {
    pub fn new(column: i32, row: i32) -> (res: CellBundle)
        ensures
            res.location == (Location { column, row }),
            res.cell.state == CellState::Cleared,
    {
        let cell = Cell::default();
        CellBundle { location: Location { column, row }, cell }
    }
}

/// The solve action that a board action is.
pub open spec fn as_solve_action(action: Action) -> PuzzleSolveAction {
    match action {
        Action::Toggle => PuzzleSolveAction::Toggle,
        Action::CrossOut => PuzzleSolveAction::CrossOut,
        Action::Mark => PuzzleSolveAction::Mark,
    }
}

/// Each board action is the solve action of the same name.
pub proof fn board_actions_are_solve_actions()
    ensures
        as_solve_action(Action::Toggle) == PuzzleSolveAction::Toggle,
        as_solve_action(Action::CrossOut) == PuzzleSolveAction::CrossOut,
        as_solve_action(Action::Mark) == PuzzleSolveAction::Mark,
{
}

/// A board action changes a cell as the solve action of the same name does.
pub fn apply_action_to_cell(action: Action, cell: &mut Cell)
    ensures
        final(cell).state == next_cell_state(as_solve_action(action), old(cell).state),
{
    cell.state = match action {
        Action::Toggle => match cell.state {
            CellState::Filled => CellState::Cleared,
            _ => CellState::Filled,
        },
        Action::Mark => CellState::Marked,
        Action::CrossOut => CellState::CrossedOut,
    }
}

/// The board after the cell events are applied in order.
pub open spec fn board_after_events(board: Seq<(EntityId, Cell)>, events: Seq<CellActionEvent>) -> Seq<
    (EntityId, Cell),
>
    decreases events.len(),
{
    if events.len() == 0 {
        board
    } else {
        step_board(
            board_after_events(board, events.drop_last()),
            as_solve_action(events.last().action),
            events.last().entity,
        )
    }
}

/// Applies a frame's cell events to the board, given as the cells with
/// their entities.
pub fn handle_cell_action(events: &Vec<CellActionEvent>, board: &mut Vec<(EntityId, Cell)>)
    ensures
        final(board)@ == board_after_events(old(board)@, events@),
{
    let n = events.len();
    let ghost start = board@;
    let mut i: usize = 0;
    while i < n
        invariant
            i <= n,
            n == events.len(),
            board@ == board_after_events(start, events@.take(i as int)),
        decreases n - i,
    {
        assert(events@.take(i + 1).drop_last() =~= events@.take(i as int));
        let event = events[i];
        let m = board.len();
        let ghost before = board@;
        let mut j: usize = 0;
        while j < m
            invariant
                j <= m,
                m == board.len(),
                m == before.len(),
                event == events@[i as int],
                forall|k: int|
                    0 <= k < j ==> board@[k] == step_board(
                        before,
                        as_solve_action(event.action),
                        event.entity,
                    )[k],
                forall|k: int| j <= k < m ==> board@[k] == before[k],
            decreases m - j,
        {
            if board[j].0 == event.entity {
                let mut cell = board[j].1;
                apply_action_to_cell(event.action, &mut cell);
                board.set(j, (event.entity, cell));
            }
            j = j + 1;
        }
        assert(board@ =~= step_board(before, as_solve_action(event.action), event.entity));
        i = i + 1;
    }
    assert(events@.take(n as int) =~= events@);
}

} // verus!
