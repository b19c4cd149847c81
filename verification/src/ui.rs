//! Puzzle selection buttons: their labels and outlines.
use vstd::prelude::*;

pub mod select;

verus! {

/// The state of a button under the pointer.
#[derive(Debug, Copy, Clone, PartialEq, Eq, Structural)]
pub enum Interaction {
    Pressed,
    Hovered,
    Idle,
}

pub open spec fn label_for(interaction: Interaction) -> Seq<char> {
    match interaction {
        Interaction::Pressed => "Press"@,
        Interaction::Hovered => "Hover"@,
        Interaction::Idle => "Button"@,
    }
}

/// A pressed button reads "Press", a hovered one "Hover" and an idle one
/// "Button".
pub proof fn button_labels()
    ensures
        label_for(Interaction::Pressed) == "Press"@,
        label_for(Interaction::Hovered) == "Hover"@,
        label_for(Interaction::Idle) == "Button"@,
{
}

/// The label a button shows in each state.
pub fn button_label(interaction: Interaction) -> (res: &'static str)
    ensures
        res@ == label_for(interaction),
{
    match interaction {
        Interaction::Pressed => "Press",
        Interaction::Hovered => "Hover",
        Interaction::Idle => "Button",
    }
}

/// What happens to a button's outline when its interaction state changes.
#[derive(Debug, Copy, Clone, PartialEq, Eq, Structural)]
pub enum OutlineChange {
    /// The outline is shown (`true`) or hidden.
    Recolor(bool),
    /// The button gets its first outline, hidden.
    InsertHidden,
}

/// A button with an outline shows it while hovered and hides it otherwise;
/// a button without one gets a hidden outline.
pub fn outline_hovered_button(interaction: Interaction, has_outline: bool) -> (res: OutlineChange)
    ensures
        res == (if has_outline {
            OutlineChange::Recolor(interaction == Interaction::Hovered)
        } else {
            OutlineChange::InsertHidden
        }),
{
    if has_outline {
        OutlineChange::Recolor(matches!(interaction, Interaction::Hovered))
    } else {
        OutlineChange::InsertHidden
    }
}

} // verus!
