//! The first version of the board: a fixed grid of cells that clicks act
//! on.
use vstd::prelude::*;

use crate::action::{cells_hit, flags_view, hit_cells};
use crate::layout::EntityId;

pub mod cell;

verus! {

/// What a click on a cell asks for.
#[derive(Debug, Copy, Clone, PartialEq, Eq, Structural)]
pub enum Action {
    Toggle,
    CrossOut,
    Mark,
}

/// Left toggles, middle marks, right crosses out, in that order of
/// precedence.
pub open spec fn mouse_click_action(left: bool, middle: bool, right: bool) -> Option<Action> {
    if left {
        Some(Action::Toggle)
    } else if middle {
        Some(Action::Mark)
    } else if right {
        Some(Action::CrossOut)
    } else {
        None
    }
}

/// What each button does: no button gives no action; the left button
/// toggles whatever else is pressed; without it the middle button marks; with
/// neither, the right button crosses out.
pub proof fn mouse_click_actions(left: bool, middle: bool, right: bool)
    ensures
        mouse_click_action(left, middle, right) is None <==> !left && !middle && !right,
        left ==> mouse_click_action(left, middle, right) == Some(Action::Toggle),
        !left && middle ==> mouse_click_action(left, middle, right) == Some(Action::Mark),
        !left && !middle && right ==> mouse_click_action(left, middle, right) == Some(
            Action::CrossOut,
        ),
{
}

pub fn get_action_from_mouse_click(
    left_just_pressed: bool,
    middle_just_pressed: bool,
    right_just_pressed: bool,
) -> (res: Option<Action>)
    ensures
        res == mouse_click_action(left_just_pressed, middle_just_pressed, right_just_pressed),
{
    if left_just_pressed {
        Some(Action::Toggle)
    } else if middle_just_pressed {
        Some(Action::Mark)
    } else if right_just_pressed {
        Some(Action::CrossOut)
    } else {
        None
    }
}

/// An action addressed to one cell.
#[derive(Debug, Copy, Clone, PartialEq, Eq, Structural)]
pub struct CellActionEvent {
    pub entity: EntityId,
    pub action: Action,
}

/// The cell events for the first `e` clicks: each click reaches every cell
/// it falls inside (`inside[e][c]` for cell `c`).
pub open spec fn world_cell_events(
    actions: Seq<Action>,
    cells: Seq<EntityId>,
    inside: Seq<Seq<bool>>,
    e: int,
) -> Seq<CellActionEvent>
    decreases e,
{
    if e <= 0 {
        Seq::empty()
    } else {
        world_cell_events(actions, cells, inside, e - 1) + cells_hit(
            inside[e - 1],
            cells.len() as int,
        ).map_values(|c: int| CellActionEvent { entity: cells[c], action: actions[e - 1] })
    }
}

/// The cell events of the first `e` clicks are exactly one per click and per
/// cell that the click falls inside, with the click's action.
pub proof fn clicks_reach_the_cells_under_them(
    actions: Seq<Action>,
    cells: Seq<EntityId>,
    inside: Seq<Seq<bool>>,
    e: int,
)
    requires
        0 <= e <= actions.len(),
        inside.len() == actions.len(),
        forall|q: int| 0 <= q < actions.len() ==> #[trigger] inside[q].len() == cells.len(),
    ensures
        forall|q: int, j: int|
            0 <= q < e && 0 <= j < cells.len() && #[trigger] inside[q][j] ==> world_cell_events(
                actions,
                cells,
                inside,
                e,
            ).contains(CellActionEvent { entity: cells[j], action: actions[q] }),
        forall|k: int|
            #![trigger world_cell_events(actions, cells, inside, e)[k]]
            0 <= k < world_cell_events(actions, cells, inside, e).len() ==> exists|q: int, j: int|
                0 <= q < e && 0 <= j < cells.len() && #[trigger] inside[q][j] && world_cell_events(
                    actions,
                    cells,
                    inside,
                    e,
                )[k].entity == cells[j] && world_cell_events(actions, cells, inside, e)[k].action
                    == actions[q],
    decreases e,
{
    if e > 0 {
        clicks_reach_the_cells_under_them(actions, cells, inside, e - 1);
        let rest = world_cell_events(actions, cells, inside, e - 1);
        let all = world_cell_events(actions, cells, inside, e);
        let flags = inside[e - 1];
        let n = cells.len() as int;
        crate::action::hit_cells_are_the_flagged_ones(flags, n);
        let hits = cells_hit(flags, n);
        let act = actions[e - 1];
        let m = hits.map_values(|c: int| CellActionEvent { entity: cells[c], action: act });
        assert(all == rest + m);
        assert forall|q: int, j: int|
            0 <= q < e && 0 <= j < cells.len() && #[trigger] inside[q][j] implies all.contains(
            CellActionEvent { entity: cells[j], action: actions[q] },
        ) by {
            if q < e - 1 {
                let k = choose|k: int|
                    0 <= k < rest.len() && rest[k] == CellActionEvent {
                        entity: cells[j],
                        action: actions[q],
                    };
                assert(all[k] == rest[k]);
            } else {
                assert(flags[j]);
                assert(hits.contains(j));
                let h = choose|h: int| 0 <= h < hits.len() && hits[h] == j;
                assert(all[rest.len() + h] == m[h]);
            }
        }
        assert forall|k: int| #![trigger all[k]] 0 <= k < all.len() implies exists|q: int, j: int|
            0 <= q < e && 0 <= j < cells.len() && #[trigger] inside[q][j] && all[k].entity == cells[j]
                && all[k].action == actions[q] by {
            if k < rest.len() {
                assert(all[k] == rest[k]);
                let (q, j) = choose|q: int, j: int|
                    0 <= q < e - 1 && 0 <= j < cells.len() && #[trigger] inside[q][j]
                        && rest[k].entity == cells[j] && rest[k].action == actions[q];
                assert(inside[q][j]);
            } else {
                let h = k - rest.len();
                assert(all[k] == m[h]);
                let j = hits[h];
                assert(inside[e - 1][j]);
            }
        }
    }
}

/// Turns the clicks of a frame into events for the cells they fall inside.
pub fn handle_world_action(
    actions: &Vec<Action>,
    cells: &Vec<EntityId>,
    inside: &Vec<Vec<bool>>,
) -> (res: Vec<CellActionEvent>)
    requires
        inside.len() == actions.len(),
        forall|e: int| 0 <= e < actions.len() ==> #[trigger] inside@[e].len() == cells.len(),
    ensures
        res@ == world_cell_events(actions@, cells@, flags_view(inside@), actions.len() as int),
{
    let mut res: Vec<CellActionEvent> = Vec::new();
    let n = actions.len();
    let mut e: usize = 0;
    while e < n
        invariant
            e <= n,
            n == actions.len(),
            inside.len() == actions.len(),
            forall|q: int| 0 <= q < actions.len() ==> #[trigger] inside@[q].len() == cells.len(),
            res@ == world_cell_events(actions@, cells@, flags_view(inside@), e as int),
        decreases n - e,
    {
        let action = actions[e];
        let hits = hit_cells(&inside[e]);
        let ghost base = res@;
        let m = hits.len();
        let mut h: usize = 0;
        while h < m
            invariant
                h <= m,
                m == hits.len(),
                e < n,
                n == actions.len(),
                inside@[e as int].len() == cells.len(),
                action == actions@[e as int],
                hits@.map_values(|k: usize| k as int) == cells_hit(
                    inside@[e as int]@,
                    cells.len() as int,
                ),
                res@ == base + hits@.take(h as int).map_values(
                    |k: usize| CellActionEvent { entity: cells@[k as int], action },
                ),
            decreases m - h,
        {
            proof {
                crate::action::lemma_cells_hit_bound(inside@[e as int]@, cells.len() as int);
                assert(hits@.map_values(|k: usize| k as int)[h as int] == hits@[h as int] as int);
            }
            let c = hits[h];
            res.push(CellActionEvent { entity: cells[c], action });
            assert(hits@.take(h + 1).map_values(
                |k: usize| CellActionEvent { entity: cells@[k as int], action },
            ) =~= hits@.take(h as int).map_values(
                |k: usize| CellActionEvent { entity: cells@[k as int], action },
            ).push(CellActionEvent { entity: cells@[c as int], action }));
            h = h + 1;
        }
        assert(hits@.take(m as int) =~= hits@);
        assert(flags_view(inside@)[e as int] == inside@[e as int]@);
        assert(hits@.map_values(|k: usize| CellActionEvent { entity: cells@[k as int], action })
            =~= cells_hit(inside@[e as int]@, cells.len() as int).map_values(
            |c: int| CellActionEvent { entity: cells@[c], action: actions@[e as int] },
        ));
        e = e + 1;
    }
    res
}

} // verus!
