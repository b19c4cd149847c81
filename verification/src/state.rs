//! The screens the game moves between.
use vstd::prelude::*;

verus! {

/// Which screen the game is on: loading the puzzles, choosing one, or
/// solving it.
#[derive(Clone, Copy, Debug, PartialEq, Eq, Structural)]
pub enum AppState {
    Load,
    Select,
    Solve,
}

} // verus!
