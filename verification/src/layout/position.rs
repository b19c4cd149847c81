//! Placement of an element inside the element it is aligned to.
use vstd::prelude::*;

use crate::puzzle::{GridSize, Line, Position};

verus! {

/// The element that another one is aligned to.
#[derive(Clone, Copy, Debug, PartialEq, Eq, Structural)]
pub enum Reference {
    Parent,
}

/// How an element is placed inside its reference: by one of three standard
/// alignments on each axis, as a cell of a grid, or alongside a line of a
/// grid.
#[derive(Clone, Copy, Debug, PartialEq, Eq, Structural)]
pub enum Alignment {
    Standard(VerticalAlign, HorizontalAlign),
    Grid(GridSize, Position, Option<Spacing>),
    Line(GridSize, Line),
}

/// An element with a rule for its placement.
#[derive(Clone, Copy, Debug, PartialEq, Eq, Structural)]
pub struct Alignable {
    pub reference: Reference,
    pub alignment: Alignment,
}

impl Alignable {
    pub fn new(reference: Reference, alignment: Alignment) -> (res: Self)
        ensures
            res.reference == reference,
            res.alignment == alignment,
    {
        Self { reference, alignment }
    }
}

/// Grid spacing: `Even` uses the smaller of the two cell dimensions on both
/// axes.
#[derive(Clone, Copy, Debug, PartialEq, Eq, Structural)]
pub enum Spacing {
    Even,
}

/// Alignment along one axis, from the low coordinate to the high one.
#[derive(Clone, Copy, Debug, PartialEq, Eq, Structural)]
pub enum Align {
    Start,
    Center,
    End,
}

#[derive(Clone, Copy, Debug, PartialEq, Eq, Structural)]
pub enum VerticalAlign {
    Top,
    Center,
    Bottom,
}

#[derive(Clone, Copy, Debug, PartialEq, Eq, Structural)]
pub enum HorizontalAlign {
    Left,
    Center,
    Right,
}

/// The vertical axis grows upwards: the top is the end of the axis.
pub open spec fn vertical_to_align(value: VerticalAlign) -> Align {
    match value {
        VerticalAlign::Top => Align::End,
        VerticalAlign::Center => Align::Center,
        VerticalAlign::Bottom => Align::Start,
    }
}

pub open spec fn horizontal_to_align(value: HorizontalAlign) -> Align {
    match value {
        HorizontalAlign::Left => Align::Start,
        HorizontalAlign::Center => Align::Center,
        HorizontalAlign::Right => Align::End,
    }
}

impl From<VerticalAlign> for Align {
    fn from(value: VerticalAlign) -> (res: Self) {
        match value {
            VerticalAlign::Top => Self::End,
            VerticalAlign::Center => Self::Center,
            VerticalAlign::Bottom => Self::Start,
        }
    }
}

impl vstd::std_specs::convert::FromSpecImpl<VerticalAlign> for Align {
    open spec fn obeys_from_spec() -> bool {
        true
    }

    open spec fn from_spec(value: VerticalAlign) -> Align {
        vertical_to_align(value)
    }
}

impl From<HorizontalAlign> for Align {
    fn from(value: HorizontalAlign) -> (res: Self) {
        match value {
            HorizontalAlign::Left => Self::Start,
            HorizontalAlign::Center => Self::Center,
            HorizontalAlign::Right => Self::End,
        }
    }
}

impl vstd::std_specs::convert::FromSpecImpl<HorizontalAlign> for Align {
    open spec fn obeys_from_spec() -> bool {
        true
    }

    open spec fn from_spec(value: HorizontalAlign) -> Align {
        horizontal_to_align(value)
    }
}

/// The two axes agree: the bottom and the left edge are both the start of
/// their axis, the top and the right edge both its end, and the centers
/// coincide. Each mapping is one-to-one.
pub proof fn align_axes_agree(v: VerticalAlign, h: HorizontalAlign)
    ensures
        (vertical_to_align(v) == horizontal_to_align(h)) <==> (
        (v == VerticalAlign::Bottom && h == HorizontalAlign::Left)
            || (v == VerticalAlign::Center && h == HorizontalAlign::Center)
            || (v == VerticalAlign::Top && h == HorizontalAlign::Right)),
        forall|w: VerticalAlign| vertical_to_align(w) == vertical_to_align(v) ==> w == v,
        forall|g: HorizontalAlign| horizontal_to_align(g) == horizontal_to_align(h) ==> g == h,
{
}

} // verus!
