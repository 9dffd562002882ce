use vstd::prelude::*;

verus! {

/// The three states of a cell.
///
/// A `Dead` cell comes alive when exactly two of its neighbours are `Alive`;
/// an `Alive` cell always turns `Dying`, and a `Dying` cell always turns `Dead`.
#[derive(Clone, Copy, Debug, PartialEq, Eq, Structural)]
pub enum CellState {
    Alive,
    Dying,
    Dead,
}

/// The state that follows `s` when `alive_neighbours` of the cell's
/// neighbours are `Alive`.
pub open spec fn next_state(s: CellState, alive_neighbours: nat) -> CellState {
    match s {
        CellState::Alive => CellState::Dying,
        CellState::Dying => CellState::Dead,
        CellState::Dead => if alive_neighbours == 2 {
            CellState::Alive
        } else {
            CellState::Dead
        },
    }
}

/// The number of cells of `cells` that are in state `st`.
pub open spec fn count_of(cells: Seq<CellState>, st: CellState) -> nat
    decreases cells.len(),
{
    if cells.len() == 0 {
        0
    } else {
        count_of(cells.drop_last(), st) + if cells.last() == st {
            1nat
        } else {
            0nat
        }
    }
}

/// The glyph of a state in the text rendering.
pub open spec fn glyph(s: CellState) -> char {
    match s {
        CellState::Alive => 'O',
        CellState::Dying => 'X',
        CellState::Dead => '.',
    }
}

impl CellState {
    /// The glyph that stands for this state in the text rendering:
    /// `O` for `Alive`, `X` for `Dying`, `.` for `Dead`.
    pub fn symbol(&self) -> (c: char)
        ensures
            c == glyph(*self),
    {
        match self {
            CellState::Alive => 'O',
            CellState::Dying => 'X',
            CellState::Dead => '.',
        }
    }
}

/// A sequence where every cell has the same state `st` counts all its cells
/// for `st` and none for any other state.
pub proof fn lemma_count_uniform(cells: Seq<CellState>, st: CellState, other: CellState)
    requires
        forall|i: int| 0 <= i < cells.len() ==> cells[i] == st,
        other != st,
    ensures
        count_of(cells, st) == cells.len(),
        count_of(cells, other) == 0,
    decreases cells.len(),
{
    if cells.len() > 0 {
        lemma_count_uniform(cells.drop_last(), st, other);
    }
}

/// Overwriting the cell at `i` moves one unit of count from its old state to
/// its new one.
pub proof fn lemma_count_update(cells: Seq<CellState>, i: int, c: CellState, st: CellState)
    requires
        0 <= i < cells.len(),
    ensures
        count_of(cells.update(i, c), st) + (if cells[i] == st {
            1nat
        } else {
            0nat
        }) == count_of(cells, st) + (if c == st {
            1nat
        } else {
            0nat
        }),
    decreases cells.len(),
{
    let u = cells.update(i, c);
    if i == cells.len() - 1 {
        assert(u.drop_last() =~= cells.drop_last());
    } else {
        assert(u.drop_last() =~= cells.drop_last().update(i, c));
        lemma_count_update(cells.drop_last(), i, c, st);
    }
}

} // verus!
