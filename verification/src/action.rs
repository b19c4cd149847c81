//! Player intents: choosing a puzzle, and acting on the cell under the
//! pointer.
use vstd::prelude::*;

use crate::layout::EntityId;
use crate::puzzle::{
    clone_puzzle, folder_view, ActivePuzzle, FolderEntry, FolderEntryView, PuzzleView,
};
use crate::state::AppState;

verus! {

#[derive(Clone, Copy, Debug, PartialEq, Eq, Structural)]
pub enum PuzzleSelectAction {
    Select,
}

/// The puzzle a selection is about, by its index in the puzzles folder.
#[derive(Clone, Copy, Debug, PartialEq, Eq, Structural)]
pub enum PuzzleSelectState {
    Puzzle(usize),
}

#[derive(Clone, Copy, Debug, PartialEq, Eq, Structural)]
pub struct PuzzleSelectEvent {
    pub action: PuzzleSelectAction,
    pub state: PuzzleSelectState,
}

/// What a click on a cell asks for.
#[derive(Clone, Copy, Debug, PartialEq, Eq, Structural)]
pub enum PuzzleSolveAction {
    CrossOut,
    Mark,
    Toggle,
}

/// Where an action applies: a point of the world, of type `P`, or a cell
/// entity.
#[derive(Clone, Copy, Debug)]
pub enum PuzzleSolveState<P> {
    WorldPosition(P),
    Entity(EntityId),
}

#[derive(Clone, Copy, Debug)]
pub struct PuzzleSolveEvent<P> {
    pub action: PuzzleSolveAction,
    pub state: PuzzleSolveState<P>,
}

/// An action addressed to one cell.
#[derive(Clone, Copy, Debug)]
pub struct CellEvent<P> {
    pub action: PuzzleSolveAction,
    pub state: PuzzleSolveState<P>,
}

pub open spec fn selected_index(event: PuzzleSelectEvent) -> usize {
    match event.state {
        PuzzleSelectState::Puzzle(index) => index,
    }
}

/// The active puzzle and the requested next state after selecting folder
/// entry `index`: a puzzle entry becomes active (`None` while its asset is
/// not available) and the solve screen is requested; another asset changes
/// nothing.
pub open spec fn select_outcome(
    folder: Seq<FolderEntryView>,
    index: int,
    current: (Option<PuzzleView>, Option<AppState>),
) -> (Option<PuzzleView>, Option<AppState>) {
    match folder[index] {
        FolderEntryView::Other => current,
        FolderEntryView::Puzzle(p) => (p, Some(AppState::Solve)),
    }
}

/// The outcome of handling the selection events in order.
pub open spec fn select_all(
    folder: Seq<FolderEntryView>,
    events: Seq<PuzzleSelectEvent>,
    current: (Option<PuzzleView>, Option<AppState>),
) -> (Option<PuzzleView>, Option<AppState>)
    decreases events.len(),
{
    if events.len() == 0 {
        current
    } else {
        select_outcome(
            folder,
            selected_index(events.last()) as int,
            select_all(folder, events.drop_last(), current),
        )
    }
}

/// Selecting a folder entry: an entry holding a loaded puzzle makes that
/// puzzle, in every field (name, grid and clues), the active one and asks
/// for the solve screen; an entry whose puzzle is not loaded leaves no
/// active puzzle and asks for the solve screen; an entry of another kind
/// changes nothing. Only the last selection of a frame decides, when it is
/// of a puzzle entry, whatever came before it.
pub proof fn selecting_an_entry_activates_its_puzzle(
    folder: Seq<FolderEntryView>,
    earlier: Seq<PuzzleSelectEvent>,
    i: int,
    current: (Option<PuzzleView>, Option<AppState>),
)
    requires
        0 <= i < folder.len(),
        i <= usize::MAX,
    ensures
        ({
            let event = PuzzleSelectEvent {
                action: PuzzleSelectAction::Select,
                state: PuzzleSelectState::Puzzle(i as usize),
            };
            let alone = select_all(folder, seq![event], current);
            let last = select_all(folder, earlier.push(event), current);
            &&& folder[i] matches FolderEntryView::Puzzle(Some(p)) ==> alone == (
                Some(p),
                Some(AppState::Solve),
            ) && last == (Some(p), Some(AppState::Solve))
            &&& folder[i] matches FolderEntryView::Puzzle(None) ==> alone == (
                None::<PuzzleView>,
                Some(AppState::Solve),
            ) && last == (None::<PuzzleView>, Some(AppState::Solve))
            &&& folder[i] is Other ==> alone == current && last == select_all(
                folder,
                earlier,
                current,
            )
        }),
{
    let event = PuzzleSelectEvent {
        action: PuzzleSelectAction::Select,
        state: PuzzleSelectState::Puzzle(i as usize),
    };
    assert(seq![event].drop_last() =~= Seq::<PuzzleSelectEvent>::empty());
    assert(earlier.push(event).drop_last() =~= earlier);
    assert(seq![event].last() == event);
    assert(select_all(folder, seq![event].drop_last(), current) == current);
    assert(earlier.push(event).last() == event);
    assert(selected_index(event) as int == i);
}

/// Selections of entries that are not puzzles change nothing, however many
/// there are.
pub proof fn selecting_other_assets_changes_nothing(
    folder: Seq<FolderEntryView>,
    events: Seq<PuzzleSelectEvent>,
    current: (Option<PuzzleView>, Option<AppState>),
)
    requires
        forall|k: int|
            0 <= k < events.len() ==> selected_index(#[trigger] events[k]) < folder.len()
                && folder[selected_index(events[k]) as int] is Other,
    ensures
        select_all(folder, events, current) == current,
    decreases events.len(),
{
    if events.len() > 0 {
        let rest = events.drop_last();
        assert forall|k: int| 0 <= k < rest.len() implies selected_index(#[trigger] rest[k])
            < folder.len() && folder[selected_index(rest[k]) as int] is Other by {
            assert(rest[k] == events[k]);
        }
        selecting_other_assets_changes_nothing(folder, rest, current);
        assert(events.last() == events[events.len() - 1]);
    }
}

/// Handles the puzzle selections of a frame, once the puzzles folder has
/// loaded (`folder` is `Some`); before that they are ignored. Every
/// selected index must name an entry of the folder.
pub fn handle_puzzle_select(
    events: &Vec<PuzzleSelectEvent>,
    folder: Option<&Vec<FolderEntry>>,
    active_puzzle: &mut ActivePuzzle,
    next_state: &mut Option<AppState>,
)
    requires
        folder matches Some(f) ==> forall|i: int|
            0 <= i < events.len() ==> selected_index(#[trigger] events@[i]) < f.len(),
    ensures
        folder is None ==> final(active_puzzle)@ == old(active_puzzle)@ && *final(next_state)
            == *old(next_state),
        folder matches Some(f) ==> (final(active_puzzle)@, *final(next_state)) == select_all(
            folder_view(f@),
            events@,
            (old(active_puzzle)@, *old(next_state)),
        ),
{
    match folder {
        None => {},
        Some(f) => {
            let ghost fv = folder_view(f@);
            let ghost start = (active_puzzle@, *next_state);
            let n = events.len();
            let mut i: usize = 0;
            while i < n
                invariant
                    i <= n,
                    n == events.len(),
                    fv == folder_view(f@),
                    forall|j: int|
                        0 <= j < events.len() ==> selected_index(#[trigger] events@[j]) < f.len(),
                    (active_puzzle@, *next_state) == select_all(
                        fv,
                        events@.take(i as int),
                        start,
                    ),
                decreases n - i,
            {
                assert(events@.take(i + 1).drop_last() =~= events@.take(i as int));
                let index = match events[i].state {
                    PuzzleSelectState::Puzzle(index) => index,
                };
                assert(index == selected_index(events@[i as int]));
                match &f[index] {
                    FolderEntry::Other => {},
                    FolderEntry::Puzzle(p) => {
                        active_puzzle.puzzle = match p {
                            Some(p) => Some(clone_puzzle(p)),
                            None => None,
                        };
                        *next_state = Some(AppState::Solve);
                    },
                }
                i = i + 1;
            }
            assert(events@.take(n as int) =~= events@);
        },
    }
}

/// The indices of the cells that a point falls inside, among the first `k`,
/// in order.
pub open spec fn cells_hit(inside: Seq<bool>, k: int) -> Seq<int>
    decreases k,
{
    if k <= 0 {
        Seq::empty()
    } else if inside[k - 1] {
        cells_hit(inside, k - 1).push(k - 1)
    } else {
        cells_hit(inside, k - 1)
    }
}

/// The cells hit among the first `k` are exactly those flagged in `inside`,
/// each once and in increasing order.
pub proof fn hit_cells_are_the_flagged_ones(inside: Seq<bool>, k: int)
    requires
        0 <= k <= inside.len(),
    ensures
        forall|j: int|
            0 <= j < cells_hit(inside, k).len() ==> 0 <= #[trigger] cells_hit(inside, k)[j] < k
                && inside[cells_hit(inside, k)[j]],
        forall|x: int| 0 <= x < k && #[trigger] inside[x] ==> cells_hit(inside, k).contains(x),
        forall|a: int, b: int|
            0 <= a < b < cells_hit(inside, k).len() ==> cells_hit(inside, k)[a] < cells_hit(
                inside,
                k,
            )[b],
    decreases k,
{
    if k > 0 {
        hit_cells_are_the_flagged_ones(inside, k - 1);
        let r = cells_hit(inside, k - 1);
        let t = cells_hit(inside, k);
        if inside[k - 1] {
            assert(t == r.push(k - 1));
            assert forall|j: int| 0 <= j < t.len() implies 0 <= #[trigger] t[j] < k && inside[t[j]] by {
                if j < r.len() {
                    assert(t[j] == r[j]);
                }
            }
            assert forall|x: int| 0 <= x < k && #[trigger] inside[x] implies t.contains(x) by {
                if x < k - 1 {
                    let j = choose|j: int| 0 <= j < r.len() && r[j] == x;
                    assert(t[j] == x);
                } else {
                    assert(t[r.len() as int] == x);
                }
            }
            assert forall|a: int, b: int| 0 <= a < b < t.len() implies t[a] < t[b] by {
                assert(t[a] == r[a]);
                if b < r.len() {
                    assert(t[b] == r[b]);
                }
            }
        }
    }
}

/// The indices of the cells flagged in `inside`, in order.
pub fn hit_cells(inside: &Vec<bool>) -> (res: Vec<usize>)
    ensures
        res@.map_values(|k: usize| k as int) == cells_hit(inside@, inside.len() as int),
{
    let mut res: Vec<usize> = Vec::new();
    let n = inside.len();
    let mut k: usize = 0;
    while k < n
        invariant
            k <= n,
            n == inside.len(),
            res@.map_values(|q: usize| q as int) == cells_hit(inside@, k as int),
        decreases n - k,
    {
        let ghost before = res@;
        if inside[k] {
            res.push(k);
            assert(res@.map_values(|q: usize| q as int) =~= before.map_values(|q: usize| q as int).push(
                k as int,
            ));
        }
        k = k + 1;
    }
    res
}

/// The cell events that the solve events of a frame give, for the first `e`
/// events: an action at a world position reaches every cell that the
/// position falls inside (`inside[e][c]` for cell `c`); an action already
/// addressed to an entity gives none.
pub open spec fn solve_cell_events<P>(
    events: Seq<PuzzleSolveEvent<P>>,
    cells: Seq<EntityId>,
    inside: Seq<Seq<bool>>,
    e: int,
) -> Seq<(PuzzleSolveAction, EntityId)>
    decreases e,
{
    if e <= 0 {
        Seq::empty()
    } else {
        let rest = solve_cell_events(events, cells, inside, e - 1);
        match events[e - 1].state {
            PuzzleSolveState::WorldPosition(_) => rest + cells_hit(
                inside[e - 1],
                cells.len() as int,
            ).map_values(|c: int| (events[e - 1].action, cells[c])),
            PuzzleSolveState::Entity(_) => rest,
        }
    }
}

/// The cell events of the first `e` solve events are exactly those of an
/// event at a world position, with its action, for each cell that its
/// position falls inside.
pub proof fn solve_events_reach_the_cells_under_them<P>(
    events: Seq<PuzzleSolveEvent<P>>,
    cells: Seq<EntityId>,
    inside: Seq<Seq<bool>>,
    e: int,
)
    requires
        0 <= e <= events.len(),
        inside.len() == events.len(),
        forall|q: int|
            0 <= q < events.len() && events[q].state is WorldPosition ==> #[trigger] inside[q].len()
                == cells.len(),
    ensures
        forall|q: int, j: int|
            0 <= q < e && events[q].state is WorldPosition && 0 <= j < cells.len() && #[trigger] inside[q][j]
                ==> solve_cell_events(events, cells, inside, e).contains((events[q].action, cells[j])),
        forall|k: int|
            #![trigger solve_cell_events(events, cells, inside, e)[k]]
            0 <= k < solve_cell_events(events, cells, inside, e).len() ==> exists|q: int, j: int|
                0 <= q < e && events[q].state is WorldPosition && 0 <= j < cells.len() && #[trigger] inside[q][j]
                    && solve_cell_events(events, cells, inside, e)[k].0 == events[q].action
                    && solve_cell_events(events, cells, inside, e)[k].1 == cells[j],
    decreases e,
{
    if e > 0 {
        solve_events_reach_the_cells_under_them(events, cells, inside, e - 1);
        let rest = solve_cell_events(events, cells, inside, e - 1);
        let all = solve_cell_events(events, cells, inside, e);
        match events[e - 1].state {
            PuzzleSolveState::WorldPosition(_) => {
                let flags = inside[e - 1];
                let n = cells.len() as int;
                hit_cells_are_the_flagged_ones(flags, n);
                let hits = cells_hit(flags, n);
                let act = events[e - 1].action;
                let m = hits.map_values(|c: int| (act, cells[c]));
                assert(all == rest + m);
                assert forall|q: int, j: int|
                    0 <= q < e && events[q].state is WorldPosition && 0 <= j < cells.len()
                        && #[trigger] inside[q][j] implies all.contains((events[q].action, cells[j])) by {
                    if q < e - 1 {
                        let k = choose|k: int| 0 <= k < rest.len() && rest[k] == (events[q].action, cells[j]);
                        assert(all[k] == rest[k]);
                    } else {
                        assert(flags[j]);
                        assert(hits.contains(j));
                        let h = choose|h: int| 0 <= h < hits.len() && hits[h] == j;
                        assert(all[rest.len() + h] == m[h]);
                    }
                }
                assert forall|k: int| #![trigger all[k]] 0 <= k < all.len() implies exists|q: int, j: int|
                    0 <= q < e && events[q].state is WorldPosition && 0 <= j < cells.len()
                        && #[trigger] inside[q][j] && all[k].0 == events[q].action && all[k].1 == cells[j] by {
                    if k < rest.len() {
                        assert(all[k] == rest[k]);
                        let (q, j) = choose|q: int, j: int|
                            0 <= q < e - 1 && events[q].state is WorldPosition && 0 <= j < cells.len()
                                && #[trigger] inside[q][j] && rest[k].0 == events[q].action && rest[k].1 == cells[j];
                        assert(inside[q][j]);
                    } else {
                        let h = k - rest.len();
                        assert(all[k] == m[h]);
                        let j = hits[h];
                        assert(inside[e - 1][j]);
                    }
                }
            },
            PuzzleSolveState::Entity(_) => {
                assert(all == rest);
                assert forall|k: int| #![trigger all[k]] 0 <= k < all.len() implies exists|q: int, j: int|
                    0 <= q < e && events[q].state is WorldPosition && 0 <= j < cells.len()
                        && #[trigger] inside[q][j] && all[k].0 == events[q].action && all[k].1 == cells[j] by {
                    let (q, j) = choose|q: int, j: int|
                        0 <= q < e - 1 && events[q].state is WorldPosition && 0 <= j < cells.len()
                            && #[trigger] inside[q][j] && rest[k].0 == events[q].action && rest[k].1 == cells[j];
                    assert(inside[q][j]);
                }
            },
        }
    }
}

pub open spec fn flags_view(inside: Seq<Vec<bool>>) -> Seq<Seq<bool>> {
    inside.map_values(|v: Vec<bool>| v@)
}

pub open spec fn cell_event_view<P>(event: CellEvent<P>) -> (PuzzleSolveAction, EntityId) {
    match event.state {
        PuzzleSolveState::Entity(entity) => (event.action, entity),
        PuzzleSolveState::WorldPosition(_) => (event.action, 0),
    }
}

/// Turns the solve events of a frame into events for the cells they reach.
/// `inside[e][c]` says whether the position of event `e` falls inside cell
/// `c`; it is read only for events at a world position.
pub fn handle_puzzle_solve<P>(
    events: &Vec<PuzzleSolveEvent<P>>,
    cells: &Vec<EntityId>,
    inside: &Vec<Vec<bool>>,
) -> (res: Vec<CellEvent<P>>)
    requires
        inside.len() == events.len(),
        forall|e: int|
            0 <= e < events.len() && events@[e].state is WorldPosition ==> #[trigger] inside@[e].len()
                == cells.len(),
    ensures
        forall|k: int| 0 <= k < res.len() ==> res@[k].state is Entity,
        res@.map_values(|c: CellEvent<P>| cell_event_view(c)) == solve_cell_events(
            events@,
            cells@,
            flags_view(inside@),
            events.len() as int,
        ),
{
    let mut res: Vec<CellEvent<P>> = Vec::new();
    let n = events.len();
    let mut e: usize = 0;
    while e < n
        invariant
            e <= n,
            n == events.len(),
            inside.len() == events.len(),
            forall|q: int|
                0 <= q < events.len() && events@[q].state is WorldPosition ==> #[trigger] inside@[q].len()
                    == cells.len(),
            forall|k: int| 0 <= k < res.len() ==> res@[k].state is Entity,
            res@.map_values(|c: CellEvent<P>| cell_event_view(c)) == solve_cell_events(
                events@,
                cells@,
                flags_view(inside@),
                e as int,
            ),
        decreases n - e,
    {
        let action = events[e].action;
        match &events[e].state {
            PuzzleSolveState::WorldPosition(_) => {
                let hits = hit_cells(&inside[e]);
                let ghost base = res@;
                let m = hits.len();
                let mut h: usize = 0;
                while h < m
                    invariant
                        h <= m,
                        m == hits.len(),
                        e < n,
                        n == events.len(),
                        inside.len() == events.len(),
                        inside@[e as int].len() == cells.len(),
                        action == events@[e as int].action,
                        hits@.map_values(|k: usize| k as int) == cells_hit(
                            inside@[e as int]@,
                            cells.len() as int,
                        ),
                        forall|k: int| 0 <= k < res.len() ==> res@[k].state is Entity,
                        res@.map_values(|c: CellEvent<P>| cell_event_view(c)) == base.map_values(
                            |c: CellEvent<P>| cell_event_view(c),
                        ) + hits@.take(h as int).map_values(
                            |k: usize| (action, cells@[k as int]),
                        ),
                    decreases m - h,
                {
                    proof {
                        lemma_cells_hit_bound(inside@[e as int]@, cells.len() as int);
                        assert(hits@.map_values(|k: usize| k as int)[h as int] == hits@[h as int]
                            as int);
                    }
                    let c = hits[h];
                    let ghost before = res@;
                    res.push(CellEvent { action, state: PuzzleSolveState::Entity(cells[c]) });
                    assert(res@.map_values(|x: CellEvent<P>| cell_event_view(x)) =~= before.map_values(
                        |x: CellEvent<P>| cell_event_view(x),
                    ).push((action, cells@[c as int])));
                    assert(hits@.take(h + 1).map_values(|k: usize| (action, cells@[k as int]))
                        =~= hits@.take(h as int).map_values(|k: usize| (action, cells@[k as int])).push(
                        (action, cells@[c as int]),
                    ));
                    h = h + 1;
                }
                assert(hits@.take(m as int) =~= hits@);
                assert(flags_view(inside@)[e as int] == inside@[e as int]@);
                assert(hits@.map_values(|k: usize| (action, cells@[k as int])) =~= cells_hit(
                    inside@[e as int]@,
                    cells.len() as int,
                ).map_values(|c: int| (events@[e as int].action, cells@[c])));
            },
            PuzzleSolveState::Entity(_) => {},
        }
        e = e + 1;
    }
    res
}

/// Every index in `cells_hit(inside, k)` is below `k`.
pub(crate) proof fn lemma_cells_hit_bound(inside: Seq<bool>, k: int)
    ensures
        forall|j: int| 0 <= j < cells_hit(inside, k).len() ==> 0 <= #[trigger] cells_hit(inside, k)[j] < k,
    decreases k,
{
    if k > 0 {
        lemma_cells_hit_bound(inside, k - 1);
        let r = cells_hit(inside, k - 1);
        assert forall|j: int| 0 <= j < cells_hit(inside, k).len() implies 0 <= #[trigger] cells_hit(
            inside,
            k,
        )[j] < k by {
            if j < r.len() {
                assert(r[j] < k - 1);
            }
        }
    }
}

} // verus!
