//! The solve screen: the puzzle grid with its cells and clues, and the root
//! element that holds them.
use vstd::prelude::*;

use crate::layout::size::{Constraint, Reference, Resizable, ResizableField};

pub mod cell;
pub mod constraint;
pub mod grid;

verus! {

/// The sizing of the root element of the solve screen: 60% of the window's
/// width and all of its height.
pub struct SolvePuzzleBundle {
    pub resizable: Resizable,
}

impl SolvePuzzleBundle {
    pub fn new() -> (res: Self)
        ensures
            res.resizable == (Resizable {
                width: ResizableField { constraint: Constraint::Pct(60), reference: Reference::Window },
                height: ResizableField { constraint: Constraint::Fill, reference: Reference::Window },
                aspect_ratio: None,
            }),
    {
        Self {
            resizable: Resizable::new(
                ResizableField { constraint: Constraint::Pct(60), reference: Reference::Window },
                ResizableField { constraint: Constraint::Fill, reference: Reference::Window },
                None,
            ),
        }
    }
}

} // verus!
