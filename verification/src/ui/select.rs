//! The puzzle selection screen: the puzzles offered, and the selections
//! that pressing their buttons makes.
use vstd::prelude::*;

use crate::action::{
    select_all, selected_index, PuzzleSelectAction, PuzzleSelectEvent, PuzzleSelectState,
};
use crate::puzzle::{folder_view, FolderEntry, FolderEntryView, PuzzleView};
use crate::state::AppState;

verus! {

/// A puzzle offered for selection: its name and its index in the folder.
#[derive(Debug)]
pub struct SelectablePuzzle {
    pub name: String,
    pub index: usize,
}

/// The puzzles offered among the first `k` folder entries: every puzzle
/// whose asset is available, in folder order, by name and index.
pub open spec fn selectable_from(folder: Seq<FolderEntryView>, k: int) -> Seq<(Seq<char>, int)>
    decreases k,
{
    if k <= 0 {
        Seq::empty()
    } else {
        let rest = selectable_from(folder, k - 1);
        match folder[k - 1] {
            FolderEntryView::Puzzle(Some(p)) => rest.push((p.name, k - 1)),
            _ => rest,
        }
    }
}

pub open spec fn selectable_view(s: Seq<SelectablePuzzle>) -> Seq<(Seq<char>, int)> {
    s.map_values(|p: SelectablePuzzle| (p.name@, p.index as int))
}

/// The puzzles to offer on the selection screen.
pub fn selectable_puzzles(folder: &Vec<FolderEntry>) -> (res: Vec<SelectablePuzzle>)
    ensures
        selectable_view(res@) == selectable_from(folder_view(folder@), folder.len() as int),
{
    let mut res: Vec<SelectablePuzzle> = Vec::new();
    let n = folder.len();
    let mut i: usize = 0;
    while i < n
        invariant
            i <= n,
            n == folder.len(),
            selectable_view(res@) == selectable_from(folder_view(folder@), i as int),
        decreases n - i,
    {
        let ghost before = res@;
        match &folder[i] {
            FolderEntry::Puzzle(Some(puzzle)) => {
                res.push(SelectablePuzzle { name: puzzle.name.clone(), index: i });
                assert(selectable_view(res@) =~= selectable_view(before).push(
                    (puzzle.name@, i as int),
                ));
            },
            _ => {},
        }
        i = i + 1;
    }
    res
}

/// The selections made when a button changes state: when it is pressed,
/// one for each puzzle among its children (`Some` index), in order.
pub fn handle_ui_input(pressed: bool, children: &Vec<Option<usize>>) -> (res: Vec<PuzzleSelectEvent>)
    ensures
        res@.map_values(|e: PuzzleSelectEvent| selected_index(e) as int) == (if pressed {
            children@.filter(|c: Option<usize>| c is Some).map_values(
                |c: Option<usize>| c->0 as int,
            )
        } else {
            Seq::empty()
        }),
        forall|k: int| 0 <= k < res.len() ==> #[trigger] res@[k].action == PuzzleSelectAction::Select,
{
    let mut res: Vec<PuzzleSelectEvent> = Vec::new();
    if pressed {
        let n = children.len();
        let mut i: usize = 0;
        while i < n
            invariant
                i <= n,
                n == children.len(),
                res@.map_values(|e: PuzzleSelectEvent| selected_index(e) as int)
                    == children@.take(i as int).filter(|c: Option<usize>| c is Some).map_values(
                    |c: Option<usize>| c->0 as int,
                ),
                forall|k: int|
                    0 <= k < res.len() ==> #[trigger] res@[k].action == PuzzleSelectAction::Select,
            decreases n - i,
        {
            let ghost before = res@;
            reveal_with_fuel(Seq::filter, 1);
            assert(children@.take(i + 1).drop_last() =~= children@.take(i as int));
            if let Some(index) = children[i] {
                res.push(
                    PuzzleSelectEvent {
                        action: PuzzleSelectAction::Select,
                        state: PuzzleSelectState::Puzzle(index),
                    },
                );
                assert(res@.map_values(|e: PuzzleSelectEvent| selected_index(e) as int)
                    =~= before.map_values(|e: PuzzleSelectEvent| selected_index(e) as int).push(
                    index as int,
                ));
            }
            i = i + 1;
        }
        assert(children@.take(n as int) =~= children@);
    }
    res
}

proof fn lemma_selectable_in_folder(folder: Seq<FolderEntryView>, k: int, j: int)
    requires
        0 <= j < selectable_from(folder, k).len(),
        k <= folder.len(),
    ensures
        0 <= selectable_from(folder, k)[j].1 < k,
        folder[selectable_from(folder, k)[j].1] matches FolderEntryView::Puzzle(Some(p)) && p.name
            == selectable_from(folder, k)[j].0,
    decreases k,
{
    if k > 0 {
        let rest = selectable_from(folder, k - 1);
        if j < rest.len() {
            lemma_selectable_in_folder(folder, k - 1, j);
            match folder[k - 1] {
                FolderEntryView::Puzzle(Some(p)) => {
                    assert(selectable_from(folder, k)[j] == rest[j]);
                },
                _ => {},
            }
        }
    }
}

/// Pressing the button of an offered puzzle makes that puzzle, with the
/// name the button shows, the active one, and asks for the solve screen.
pub proof fn selecting_an_offered_puzzle_activates_it(
    folder: Seq<FolderEntryView>,
    j: int,
    current: (Option<PuzzleView>, Option<AppState>),
)
    requires
        folder.len() <= usize::MAX,
        0 <= j < selectable_from(folder, folder.len() as int).len(),
    ensures
        ({
            let (name, index) = selectable_from(folder, folder.len() as int)[j];
            let event = PuzzleSelectEvent {
                action: PuzzleSelectAction::Select,
                state: PuzzleSelectState::Puzzle(index as usize),
            };
            let outcome = select_all(folder, seq![event], current);
            &&& 0 <= index < folder.len()
            &&& outcome.1 == Some(AppState::Solve)
            &&& outcome.0 matches Some(p) && p.name == name
        }),
{
    lemma_selectable_in_folder(folder, folder.len() as int, j);
    let (name, index) = selectable_from(folder, folder.len() as int)[j];
    let event = PuzzleSelectEvent {
        action: PuzzleSelectAction::Select,
        state: PuzzleSelectState::Puzzle(index as usize),
    };
    assert(seq![event].drop_last() =~= Seq::<PuzzleSelectEvent>::empty());
}

proof fn lemma_loaded_puzzle_offered(folder: Seq<FolderEntryView>, k: int, i: int)
    requires
        0 <= i < k <= folder.len(),
        folder[i] matches FolderEntryView::Puzzle(Some(_)),
    ensures
        exists|j: int|
            0 <= j < selectable_from(folder, k).len() && #[trigger] selectable_from(folder, k)[j].1
                == i,
    decreases k,
{
    let rest = selectable_from(folder, k - 1);
    if i < k - 1 {
        lemma_loaded_puzzle_offered(folder, k - 1, i);
        let j = choose|j: int| 0 <= j < rest.len() && #[trigger] rest[j].1 == i;
        match folder[k - 1] {
            FolderEntryView::Puzzle(Some(p)) => {
                assert(selectable_from(folder, k)[j] == rest[j]);
            },
            _ => {
                assert(selectable_from(folder, k)[j] == rest[j]);
            },
        }
        assert(selectable_from(folder, k)[j].1 == i);
    } else {
        match folder[k - 1] {
            FolderEntryView::Puzzle(Some(p)) => {
                assert(selectable_from(folder, k)[rest.len() as int].1 == i);
            },
            _ => {},
        }
    }
}

proof fn lemma_offered_increasing(folder: Seq<FolderEntryView>, k: int)
    requires
        k <= folder.len(),
    ensures
        forall|a: int, b: int|
            0 <= a < b < selectable_from(folder, k).len() ==> selectable_from(folder, k)[a].1
                < selectable_from(folder, k)[b].1,
    decreases k,
{
    if k > 0 {
        lemma_offered_increasing(folder, k - 1);
        let rest = selectable_from(folder, k - 1);
        assert forall|j: int| 0 <= j < rest.len() implies rest[j].1 < k - 1 by {
            lemma_selectable_in_folder(folder, k - 1, j);
        }
        match folder[k - 1] {
            FolderEntryView::Puzzle(Some(p)) => {
                let s = selectable_from(folder, k);
                assert forall|a: int, b: int| 0 <= a < b < s.len() implies s[a].1 < s[b].1 by {
                    assert(s[a] == rest[a]);
                    if b < rest.len() {
                        assert(s[b] == rest[b]);
                    }
                }
            },
            _ => {},
        }
    }
}

/// The selection screen offers exactly the puzzles whose assets are
/// available, each once, in folder order: every offer is such a puzzle, with
/// its name, and every such puzzle is offered.
pub proof fn offered_puzzles_are_exactly_the_loaded_ones(folder: Seq<FolderEntryView>)
    ensures
        forall|j: int|
            0 <= j < selectable_from(folder, folder.len() as int).len() ==> {
                let (name, index) = #[trigger] selectable_from(folder, folder.len() as int)[j];
                &&& 0 <= index < folder.len()
                &&& folder[index] matches FolderEntryView::Puzzle(Some(p)) && p.name == name
            },
        forall|i: int|
            #![trigger folder[i]]
            0 <= i < folder.len() && (folder[i] matches FolderEntryView::Puzzle(Some(_)))
                ==> exists|j: int|
                0 <= j < selectable_from(folder, folder.len() as int).len()
                    && #[trigger] selectable_from(folder, folder.len() as int)[j].1 == i,
        forall|a: int, b: int|
            0 <= a < b < selectable_from(folder, folder.len() as int).len() ==> selectable_from(
                folder,
                folder.len() as int,
            )[a].1 < selectable_from(folder, folder.len() as int)[b].1,
{
    let n = folder.len() as int;
    assert forall|j: int| 0 <= j < selectable_from(folder, n).len() implies {
        let (name, index) = #[trigger] selectable_from(folder, n)[j];
        &&& 0 <= index < folder.len()
        &&& folder[index] matches FolderEntryView::Puzzle(Some(p)) && p.name == name
    } by {
        lemma_selectable_in_folder(folder, n, j);
    }
    assert forall|i: int|
        #![trigger folder[i]]
        0 <= i < folder.len() && (folder[i] matches FolderEntryView::Puzzle(Some(_))) implies exists|
        j: int,
    | 0 <= j < selectable_from(folder, n).len() && #[trigger] selectable_from(folder, n)[j].1 == i by {
        lemma_loaded_puzzle_offered(folder, n, i);
    }
    lemma_offered_increasing(folder, n);
}

} // verus!
