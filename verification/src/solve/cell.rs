//! The cells of the grid being solved: their states, how an action changes
//! a cell, and how a frame's cell events change the board.
use vstd::prelude::*;

use crate::action::{
    cell_event_view, cells_hit, solve_cell_events, CellEvent, PuzzleSolveAction, PuzzleSolveEvent,
    PuzzleSolveState,
};
use crate::layout::position::{Alignable, Alignment, Reference as AlignReference, Spacing};
use crate::layout::size::{AspectRatio, Constraint, Reference, Resizable, ResizableField};
use crate::layout::EntityId;
use crate::puzzle::{GridSize, Position};

verus! {

/// What the player has marked a cell as.
#[derive(Clone, Copy, Debug, PartialEq, Eq, Structural)]
pub enum CellState {
    Cleared,
    Filled,
    CrossedOut,
    Marked,
}

impl Default for CellState {
    fn default() -> (res: Self)
        ensures
            res == CellState::Cleared,
    {
        CellState::Cleared
    }
}

/// A grid cell.
#[derive(Clone, Copy, Debug, PartialEq, Eq, Structural)]
pub struct Cell {
    pub state: CellState,
}

impl Default for Cell {
    fn default() -> (res: Self)
        ensures
            res.state == CellState::Cleared,
    {
        Cell { state: CellState::Cleared }
    }
}

/// The state a cell takes when `action` is applied: a toggle clears a
/// filled cell and fills any other; marking and crossing out set the cell
/// whatever it was.
pub open spec fn next_cell_state(action: PuzzleSolveAction, state: CellState) -> CellState {
    match action {
        PuzzleSolveAction::Toggle => match state {
            CellState::Filled => CellState::Cleared,
            _ => CellState::Filled,
        },
        PuzzleSolveAction::Mark => CellState::Marked,
        PuzzleSolveAction::CrossOut => CellState::CrossedOut,
    }
}

pub fn apply_action_to_cell(action: &PuzzleSolveAction, cell: &mut Cell)
    ensures
        final(cell).state == next_cell_state(*action, old(cell).state),
{
    cell.state = match action {
        PuzzleSolveAction::Toggle => match cell.state {
            CellState::Filled => CellState::Cleared,
            _ => CellState::Filled,
        },
        PuzzleSolveAction::Mark => CellState::Marked,
        PuzzleSolveAction::CrossOut => CellState::CrossedOut,
    }
}

/// Toggling switches a cell between filled and cleared: a filled cell
/// becomes cleared and any other becomes filled, so toggling twice gives a
/// filled or cleared cell back.
pub proof fn toggle_round_trip(state: CellState)
    ensures
        next_cell_state(PuzzleSolveAction::Toggle, state) == (if state == CellState::Filled {
            CellState::Cleared
        } else {
            CellState::Filled
        }),
        state == CellState::Filled || state == CellState::Cleared ==> next_cell_state(
            PuzzleSolveAction::Toggle,
            next_cell_state(PuzzleSolveAction::Toggle, state),
        ) == state,
{
}

/// Marking and crossing out set the cell whatever it was, so doing either
/// twice is the same as doing it once.
pub proof fn mark_and_cross_out_overwrite(state: CellState)
    ensures
        next_cell_state(PuzzleSolveAction::Mark, state) == CellState::Marked,
        next_cell_state(PuzzleSolveAction::CrossOut, state) == CellState::CrossedOut,
        next_cell_state(PuzzleSolveAction::Mark, next_cell_state(PuzzleSolveAction::Mark, state))
            == next_cell_state(PuzzleSolveAction::Mark, state),
        next_cell_state(
            PuzzleSolveAction::CrossOut,
            next_cell_state(PuzzleSolveAction::CrossOut, state),
        ) == next_cell_state(PuzzleSolveAction::CrossOut, state),
{
}

/// The board after `action` is applied to the cell `target`.
pub open spec fn step_board(board: Seq<(EntityId, Cell)>, action: PuzzleSolveAction, target: EntityId) -> Seq<
    (EntityId, Cell),
> {
    Seq::new(
        board.len(),
        |i: int|
            if board[i].0 == target {
                (board[i].0, Cell { state: next_cell_state(action, board[i].1.state) })
            } else {
                board[i]
            },
    )
}

/// The board after the cell events are applied in order; an event that is
/// not addressed to an entity changes nothing.
pub open spec fn board_after<P>(board: Seq<(EntityId, Cell)>, events: Seq<CellEvent<P>>) -> Seq<
    (EntityId, Cell),
>
    decreases events.len(),
{
    if events.len() == 0 {
        board
    } else {
        let before = board_after(board, events.drop_last());
        match events.last().state {
            PuzzleSolveState::Entity(target) => step_board(before, events.last().action, target),
            PuzzleSolveState::WorldPosition(_) => before,
        }
    }
}

fn apply_to_board(board: &mut Vec<(EntityId, Cell)>, action: PuzzleSolveAction, target: EntityId)
    ensures
        final(board)@ == step_board(old(board)@, action, target),
{
    let n = board.len();
    let ghost start = board@;
    let mut i: usize = 0;
    while i < n
        invariant
            i <= n,
            n == board.len(),
            n == start.len(),
            forall|j: int| 0 <= j < i ==> board@[j] == step_board(start, action, target)[j],
            forall|j: int| i <= j < n ==> board@[j] == start[j],
        decreases n - i,
    {
        if board[i].0 == target {
            let mut cell = board[i].1;
            apply_action_to_cell(&action, &mut cell);
            board.set(i, (target, cell));
        }
        i = i + 1;
    }
    assert(board@ =~= step_board(start, action, target));
}

/// Applies a frame's cell events to the board, given as the cells with
/// their entities.
pub fn handle_cell_action<P>(events: &Vec<CellEvent<P>>, board: &mut Vec<(EntityId, Cell)>)
    ensures
        final(board)@ == board_after(old(board)@, events@),
{
    let n = events.len();
    let ghost start = board@;
    let mut i: usize = 0;
    while i < n
        invariant
            i <= n,
            n == events.len(),
            board@ == board_after(start, events@.take(i as int)),
        decreases n - i,
    {
        assert(events@.take(i + 1).drop_last() =~= events@.take(i as int));
        match &events[i].state {
            PuzzleSolveState::Entity(target) => {
                apply_to_board(board, events[i].action, *target);
            },
            PuzzleSolveState::WorldPosition(_) => {},
        }
        i = i + 1;
    }
    assert(events@.take(n as int) =~= events@);
}

/// Only the cells that events are addressed to change: the board keeps its
/// length and its entities, and a cell that no event of the frame is
/// addressed to keeps its state.
pub proof fn board_frame<P>(board: Seq<(EntityId, Cell)>, events: Seq<CellEvent<P>>, i: int)
    requires
        0 <= i < board.len(),
        forall|k: int|
            0 <= k < events.len() ==> !(#[trigger] events[k].state matches PuzzleSolveState::Entity(
                t,
            ) && t == board[i].0),
    ensures
        board_after(board, events).len() == board.len(),
        board_after(board, events)[i] == board[i],
    decreases events.len(),
{
    if events.len() > 0 {
        let rest = events.drop_last();
        assert forall|k: int|
            0 <= k < rest.len() implies !(#[trigger] rest[k].state matches PuzzleSolveState::Entity(
            t,
        ) && t == board[i].0) by {
            assert(rest[k] == events[k]);
        }
        board_frame(board, rest, i);
        assert(events.last() == events[events.len() - 1]);
    }
}

/// The board after the actions, each addressed to a cell entity, are applied
/// in order.
pub open spec fn board_after_actions(
    board: Seq<(EntityId, Cell)>,
    actions: Seq<(PuzzleSolveAction, EntityId)>,
) -> Seq<(EntityId, Cell)>
    decreases actions.len(),
{
    if actions.len() == 0 {
        board
    } else {
        step_board(
            board_after_actions(board, actions.drop_last()),
            actions.last().0,
            actions.last().1,
        )
    }
}

proof fn lemma_board_after_views<P>(board: Seq<(EntityId, Cell)>, events: Seq<CellEvent<P>>)
    requires
        forall|k: int| 0 <= k < events.len() ==> #[trigger] events[k].state is Entity,
    ensures
        board_after(board, events) == board_after_actions(
            board,
            events.map_values(|c: CellEvent<P>| cell_event_view(c)),
        ),
    decreases events.len(),
{
    if events.len() > 0 {
        let rest = events.drop_last();
        assert forall|k: int| 0 <= k < rest.len() implies #[trigger] rest[k].state is Entity by {
            assert(rest[k] == events[k]);
        }
        lemma_board_after_views(board, rest);
        assert(events.map_values(|c: CellEvent<P>| cell_event_view(c)).drop_last() =~= rest.map_values(
            |c: CellEvent<P>| cell_event_view(c),
        ));
        assert(events[events.len() - 1].state is Entity);
    }
}

/// The board with every cell flagged in `inside` among the first `k`
/// changed by `action`.
pub open spec fn board_with_action_on(
    board: Seq<(EntityId, Cell)>,
    action: PuzzleSolveAction,
    inside: Seq<bool>,
    k: int,
) -> Seq<(EntityId, Cell)> {
    Seq::new(
        board.len(),
        |i: int|
            if i < k && inside[i] {
                (board[i].0, Cell { state: next_cell_state(action, board[i].1.state) })
            } else {
                board[i]
            },
    )
}

proof fn lemma_click_prefix(
    board: Seq<(EntityId, Cell)>,
    action: PuzzleSolveAction,
    inside: Seq<bool>,
    k: int,
)
    requires
        board.len() == inside.len(),
        0 <= k <= board.len(),
        forall|i: int, j: int| 0 <= i < j < board.len() ==> board[i].0 != board[j].0,
    ensures
        board_after_actions(
            board,
            cells_hit(inside, k).map_values(|c: int| (action, board[c].0)),
        ) == board_with_action_on(board, action, inside, k),
    decreases k,
{
    if k > 0 {
        lemma_click_prefix(board, action, inside, k - 1);
        let prev = board_with_action_on(board, action, inside, k - 1);
        let f = |c: int| (action, board[c].0);
        if inside[k - 1] {
            assert(cells_hit(inside, k).map_values(f) =~= cells_hit(inside, k - 1).map_values(f).push(
                (action, board[k - 1].0),
            ));
            assert(cells_hit(inside, k).map_values(f).drop_last() =~= cells_hit(
                inside,
                k - 1,
            ).map_values(f));
            assert(step_board(prev, action, board[k - 1].0) =~= board_with_action_on(
                board,
                action,
                inside,
                k,
            ));
        } else {
            assert(prev =~= board_with_action_on(board, action, inside, k));
        }
    }
}

/// A click changes exactly the cells it falls inside: on a board whose cells
/// are distinct entities, the cell events that one action at a world
/// position gives (`inside[i]` telling whether the position falls inside
/// cell `i`) change each such cell by the action and leave every other cell
/// as it was.
pub proof fn click_changes_exactly_the_cells_under_it<P>(
    board: Seq<(EntityId, Cell)>,
    action: PuzzleSolveAction,
    position: P,
    inside: Seq<bool>,
)
    requires
        board.len() == inside.len(),
        forall|i: int, j: int| 0 <= i < j < board.len() ==> board[i].0 != board[j].0,
    ensures
        board_after_actions(
            board,
            solve_cell_events(
                seq![PuzzleSolveEvent { action, state: PuzzleSolveState::WorldPosition(position) }],
                board.map_values(|b: (EntityId, Cell)| b.0),
                seq![inside],
                1,
            ),
        ) == board_with_action_on(board, action, inside, board.len() as int),
{
    let events = seq![PuzzleSolveEvent { action, state: PuzzleSolveState::WorldPosition(position) }];
    let cells = board.map_values(|b: (EntityId, Cell)| b.0);
    lemma_click_prefix(board, action, inside, board.len() as int);
    assert(solve_cell_events(events, cells, seq![inside], 0) =~= Seq::empty());
    assert(solve_cell_events(events, cells, seq![inside], 1) =~= cells_hit(
        inside,
        board.len() as int,
    ).map_values(|c: int| (action, board[c].0))) by {
        crate::action::lemma_cells_hit_bound(inside, board.len() as int);
    }
}

/// What `handle_cell_action` does with the events of `handle_puzzle_solve`:
/// when every event is addressed to a cell entity, the board changes as the
/// actions, taken in order, say.
pub proof fn cell_events_apply_their_actions<P>(
    board: Seq<(EntityId, Cell)>,
    events: Seq<CellEvent<P>>,
)
    requires
        forall|k: int| 0 <= k < events.len() ==> #[trigger] events[k].state is Entity,
    ensures
        board_after(board, events) == board_after_actions(
            board,
            events.map_values(|c: CellEvent<P>| cell_event_view(c)),
        ),
{
    lemma_board_after_views(board, events);
}

/// The layout of one grid cell: placed as cell (`column`, `row`) of the
/// grid with even spacing, one (columns + 1)-th of the grid's width wide and
/// one (rows + 1)-th of its height high, kept square.
#[derive(Clone, Copy, Debug, PartialEq, Eq, Structural)]
pub struct CellBundle {
    pub alignable: Alignable,
    pub resizable: Resizable,
    pub position: Position,
    pub cell: Cell,
}

pub open spec fn cell_bundle(row: i32, column: i32, size: GridSize) -> CellBundle {
    CellBundle {
        alignable: Alignable {
            reference: AlignReference::Parent,
            alignment: Alignment::Grid(size, Position { column, row }, Some(Spacing::Even)),
        },
        resizable: Resizable {
            width: ResizableField {
                constraint: Constraint::Fr((size.columns + 1) as i32),
                reference: Reference::Parent,
            },
            height: ResizableField {
                constraint: Constraint::Fr((size.rows + 1) as i32),
                reference: Reference::Parent,
            },
            aspect_ratio: Some(AspectRatio { width: 1, height: 1 }),
        },
        position: Position { column, row },
        cell: Cell { state: CellState::Cleared },
    }
}

/// A new cell is cleared, sits at its own place in the grid with even
/// spacing, and is square: one (columns + 1)-th of its parent's width wide
/// and one (rows + 1)-th of its height high, brought to a 1 : 1 ratio.
pub proof fn new_cell_layout(row: i32, column: i32, size: GridSize)
    requires
        size.columns < i32::MAX,
        size.rows < i32::MAX,
    ensures
        cell_bundle(row, column, size).cell.state == CellState::Cleared,
        cell_bundle(row, column, size).position == (Position { column, row }),
        cell_bundle(row, column, size).alignable.reference == AlignReference::Parent,
        cell_bundle(row, column, size).alignable.alignment == Alignment::Grid(
            size,
            cell_bundle(row, column, size).position,
            Some(Spacing::Even),
        ),
        cell_bundle(row, column, size).resizable.width.reference == Reference::Parent,
        cell_bundle(row, column, size).resizable.height.reference == Reference::Parent,
        cell_bundle(row, column, size).resizable.width.constraint == Constraint::Fr(
            (size.columns + 1) as i32,
        ),
        cell_bundle(row, column, size).resizable.height.constraint == Constraint::Fr(
            (size.rows + 1) as i32,
        ),
        (size.columns + 1) as i32 == size.columns + 1,
        (size.rows + 1) as i32 == size.rows + 1,
        cell_bundle(row, column, size).resizable.aspect_ratio == Some(
            AspectRatio { width: 1, height: 1 },
        ),
{
}

impl CellBundle {
    pub fn new(row: i32, column: i32, size: &GridSize) -> (res: Self)
        requires
            size.columns < i32::MAX,
            size.rows < i32::MAX,
        ensures
            res == cell_bundle(row, column, *size),
    {
        let cell = Cell::default();
        CellBundle {
            alignable: Alignable::new(
                AlignReference::Parent,
                Alignment::Grid(*size, Position { column, row }, Some(Spacing::Even)),
            ),
            resizable: Resizable::new(
                ResizableField {
                    constraint: Constraint::Fr(size.columns + 1),
                    reference: Reference::Parent,
                },
                ResizableField {
                    constraint: Constraint::Fr(size.rows + 1),
                    reference: Reference::Parent,
                },
                Some(AspectRatio { width: 1, height: 1 }),
            ),
            position: Position { column, row },
            cell,
        }
    }
}

} // verus!
