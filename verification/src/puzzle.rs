//! The puzzle description: grid dimensions, clue constraints, and the
//! puzzle that is currently being solved.
use vstd::prelude::*;

use crate::state::AppState;

verus! {

/// Number of columns and rows of a puzzle grid.
#[derive(Clone, Copy, Debug, PartialEq, Eq, Structural)]
pub struct GridSize {
    pub columns: i32,
    pub rows: i32,
}

/// A cell of the grid, addressed by column and row.
#[derive(Clone, Copy, Debug, PartialEq, Eq, Structural)]
pub struct Position {
    pub column: i32,
    pub row: i32,
}

/// A whole column or a whole row of the grid.
#[derive(Clone, Copy, Debug, PartialEq, Eq, Structural)]
pub enum Line {
    Column(i32),
    Row(i32),
}

/// One clue: the length of a run of filled cells, or a run of any length.
#[derive(Clone, Copy, Debug, PartialEq, Eq, Structural)]
pub enum Condition {
    Number(i32),
    Wildcard,
}

/// The clues given for a line, or a clue pinned to a single cell.
#[derive(Clone, Debug)]
pub enum Constraint {
    Line(Line, Vec<Condition>),
    Position(Position, Condition),
}

/// Mathematical value of a [`Constraint`].
pub enum ConstraintView {
    Line(Line, Seq<Condition>),
    Position(Position, Condition),
}

impl View for Constraint {
    type V = ConstraintView;

    open spec fn view(&self) -> ConstraintView {
        match self {
            Constraint::Line(line, conditions) => ConstraintView::Line(*line, conditions@),
            Constraint::Position(position, condition) => ConstraintView::Position(
                *position,
                *condition,
            ),
        }
    }
}

/// A puzzle as loaded from its description file.
#[derive(Clone, Debug)]
pub struct Puzzle {
    pub name: String,
    pub grid: GridSize,
    pub constraints: Vec<Constraint>,
}

/// Mathematical value of a [`Puzzle`].
pub struct PuzzleView {
    pub name: Seq<char>,
    pub grid: GridSize,
    pub constraints: Seq<ConstraintView>,
}

pub open spec fn constraints_view(constraints: Seq<Constraint>) -> Seq<ConstraintView> {
    constraints.map_values(|c: Constraint| c@)
}

impl View for Puzzle {
    type V = PuzzleView;

    open spec fn view(&self) -> PuzzleView {
        PuzzleView {
            name: self.name@,
            grid: self.grid,
            constraints: constraints_view(self.constraints@),
        }
    }
}

fn copy_conditions(conditions: &Vec<Condition>) -> (res: Vec<Condition>)
    ensures
        res@ == conditions@,
{
    let mut res: Vec<Condition> = Vec::new();
    let n = conditions.len();
    for i in 0..n
        invariant
            n == conditions.len(),
            res@ == conditions@.take(i as int),
    {
        res.push(conditions[i]);
        assert(res@ == conditions@.take(i + 1));
    }
    assert(conditions@.take(n as int) == conditions@);
    res
}

fn copy_constraint(constraint: &Constraint) -> (res: Constraint)
    ensures
        res@ == constraint@,
{
    match constraint {
        Constraint::Line(line, conditions) => Constraint::Line(*line, copy_conditions(conditions)),
        Constraint::Position(position, condition) => Constraint::Position(*position, *condition),
    }
}

/// A copy of `puzzle` with the same name, grid and constraints.
pub fn clone_puzzle(puzzle: &Puzzle) -> (res: Puzzle)
    ensures
        res@ == puzzle@,
        res.name@ == puzzle.name@,
        res.grid == puzzle.grid,
        res.constraints.len() == puzzle.constraints.len(),
        forall|j: int|
            0 <= j < puzzle.constraints.len() ==> #[trigger] res.constraints@[j]@
                == puzzle.constraints@[j]@,
{
    let mut constraints: Vec<Constraint> = Vec::new();
    let n = puzzle.constraints.len();
    for i in 0..n
        invariant
            n == puzzle.constraints.len(),
            constraints.len() == i,
            forall|j: int| 0 <= j < i ==> #[trigger] constraints@[j]@ == puzzle.constraints@[j]@,
    {
        constraints.push(copy_constraint(&puzzle.constraints[i]));
    }
    assert(constraints_view(constraints@) =~= constraints_view(puzzle.constraints@));
    Puzzle { name: puzzle.name.clone(), grid: puzzle.grid, constraints }
}

/// The puzzle being solved, if any.
#[derive(Debug)]
pub struct ActivePuzzle {
    pub puzzle: Option<Puzzle>,
}

pub open spec fn option_puzzle_view(p: Option<Puzzle>) -> Option<PuzzleView> {
    match p {
        Some(p) => Some(p@),
        None => None,
    }
}

impl View for ActivePuzzle {
    type V = Option<PuzzleView>;

    open spec fn view(&self) -> Option<PuzzleView> {
        option_puzzle_view(self.puzzle)
    }
}

impl ActivePuzzle {
    /// No puzzle is active.
    pub fn new() -> (res: ActivePuzzle)
        ensures
            res@ is None,
    {
        ActivePuzzle { puzzle: None }
    }

    /// Forgets the active puzzle, as happens when the solve screen is left.
    pub fn unset_active_puzzle(&mut self)
        ensures
            final(self)@ is None,
    {
        self.puzzle = None;
    }
}

/// One handle of the loaded puzzles folder: an asset of another type, or a
/// puzzle, which is `None` while its asset is not available.
#[derive(Debug)]
pub enum FolderEntry {
    Other,
    Puzzle(Option<Puzzle>),
}

pub enum FolderEntryView {
    Other,
    Puzzle(Option<PuzzleView>),
}

impl View for FolderEntry {
    type V = FolderEntryView;

    open spec fn view(&self) -> FolderEntryView {
        match self {
            FolderEntry::Other => FolderEntryView::Other,
            FolderEntry::Puzzle(p) => FolderEntryView::Puzzle(option_puzzle_view(*p)),
        }
    }
}

pub open spec fn folder_view(folder: Seq<FolderEntry>) -> Seq<FolderEntryView> {
    folder.map_values(|e: FolderEntry| e@)
}

/// The state to move to once the puzzles folder has loaded: `Select` as soon
/// as one of the reported load events is for that folder, with all its
/// dependencies.
pub fn transition_on_load(folder_loaded: &Vec<bool>) -> (res: Option<AppState>)
    ensures
        res == (if folder_loaded@.contains(true) {
            Some(AppState::Select)
        } else {
            None
        }),
{
    let mut res: Option<AppState> = None;
    let n = folder_loaded.len();
    for i in 0..n
        invariant
            n == folder_loaded.len(),
            res == (if exists|j: int| 0 <= j < i && folder_loaded@[j] {
                Some(AppState::Select)
            } else {
                None
            }),
    {
        if folder_loaded[i] {
            res = Some(AppState::Select);
        }
    }
    proof {
        if folder_loaded@.contains(true) {
            let j = choose|j: int| 0 <= j < folder_loaded@.len() && folder_loaded@[j] == true;
            assert(folder_loaded@[j]);
        }
    }
    res
}

} // verus!
