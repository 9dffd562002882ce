use vstd::prelude::*;
use crate::cell::{CellState, next_state};
use crate::topology::{as_ints, is_neighbour_table, neighbour_list, lemma_grid_coordinates, lemma_moore_in_grid};

verus! {

/// How many of the cells named by `idx` are `Alive`.
pub open spec fn alive_among(cells: Seq<CellState>, idx: Seq<int>) -> nat
    decreases idx.len(),
{
    if idx.len() == 0 {
        0
    } else {
        alive_among(cells, idx.drop_last()) + if cells[idx.last()] == CellState::Alive {
            1nat
        } else {
            0nat
        }
    }
}

/// How many neighbours of cell `i` are `Alive`.
pub open spec fn alive_neighbours(cells: Seq<CellState>, side: int, i: int) -> nat {
    alive_among(cells, neighbour_list(side, i))
}

/// The generation that follows `cells` on a grid of side `side`: every cell
/// takes its next state from the counts of the current generation.
pub open spec fn generation(cells: Seq<CellState>, side: int) -> Seq<CellState> {
    Seq::new(cells.len(), |i: int| next_state(cells[i], alive_neighbours(cells, side, i)))
}

proof fn lemma_push_keeps(s: Seq<usize>, t: Seq<usize>, y: usize)
    requires
        t.len() >= s.len(),
        forall|k: int| 0 <= k < s.len() ==> t[k] == s[k],
    ensures
        s.contains(y) ==> t.contains(y),
{
    if s.contains(y) {
        let m = choose|m: int| 0 <= m < s.len() && s[m] == y;
        assert(t[m] == y);
    }
}

/// Counts the `Alive` cells among the neighbours `nbrs` of one cell.
fn count_alive(cells: &Vec<CellState>, nbrs: &Vec<usize>) -> (k: usize)
    requires
        forall|t: int| 0 <= t < nbrs.len() ==> (#[trigger] nbrs[t] as int) < cells.len(),
        nbrs.len() <= 8,
    ensures
        k == alive_among(cells@, as_ints(nbrs@)),
{
    let mut k: usize = 0;
    let mut t: usize = 0;
    while t < nbrs.len()
        invariant
            t <= nbrs.len(),
            nbrs.len() <= 8,
            k <= t,
            forall|u: int| 0 <= u < nbrs.len() ==> (#[trigger] nbrs[u] as int) < cells.len(),
            k == alive_among(cells@, as_ints(nbrs@.subrange(0, t as int))),
        decreases nbrs.len() - t,
    {
        assert(as_ints(nbrs@.subrange(0, t as int + 1)).drop_last() =~= as_ints(
            nbrs@.subrange(0, t as int),
        ));
        if cells[nbrs[t]] == CellState::Alive {
            k = k + 1;
        }
        t = t + 1;
    }
    assert(nbrs@.subrange(0, t as int) =~= nbrs@);
    k
}

/// Advances `cells` by one generation. Every next state is decided from the
/// current generation first; the changes are then applied in three batches
/// (cells turning `Dying`, `Dead` and `Alive`), so that no decision reads a
/// cell already updated.
pub fn advance(cells: &mut Vec<CellState>, side: usize, table: &Vec<Vec<usize>>)
    requires
        side >= 1,
        old(cells).len() == side * side,
        is_neighbour_table(table@, side as int),
    ensures
        final(cells)@ == generation(old(cells)@, side as int),
{
    let ghost g0 = cells@;
    let n = cells.len();
    let mut to_dying: Vec<usize> = Vec::new();
    let mut to_dead: Vec<usize> = Vec::new();
    let mut to_alive: Vec<usize> = Vec::new();
    let mut i: usize = 0;
    while i < n
        invariant
            n == cells.len(),
            cells@ == g0,
            side >= 1,
            n == side * side,
            is_neighbour_table(table@, side as int),
            i <= n,
            forall|m: int|
                0 <= m < to_dying.len() ==> (#[trigger] to_dying[m] as int) < i && g0[to_dying[m]
                    as int] == CellState::Alive,
            forall|m: int|
                0 <= m < to_dead.len() ==> (#[trigger] to_dead[m] as int) < i && g0[to_dead[m]
                    as int] == CellState::Dying,
            forall|m: int|
                0 <= m < to_alive.len() ==> (#[trigger] to_alive[m] as int) < i && g0[to_alive[m]
                    as int] == CellState::Dead && alive_neighbours(g0, side as int, to_alive[m] as int)
                    == 2,
            forall|j: int|
                0 <= j < i ==> (g0[j] == CellState::Alive ==> to_dying@.contains(j as usize)) && (
                g0[j] == CellState::Dying ==> to_dead@.contains(j as usize)) && (g0[j]
                    == CellState::Dead && alive_neighbours(g0, side as int, j) == 2
                    ==> to_alive@.contains(j as usize)),
        decreases n - i,
    {
        let ghost d0 = to_dying@;
        let ghost e0 = to_dead@;
        let ghost a0 = to_alive@;
        match cells[i] {
            CellState::Alive => {
                to_dying.push(i);
            },
            CellState::Dying => {
                to_dead.push(i);
            },
            CellState::Dead => {
                let nbrs = &table[i];
                proof {
                    lemma_grid_coordinates(side as int, i as int);
                    assert(as_ints(nbrs@).len() == nbrs.len());
                    assert forall|t: int| 0 <= t < nbrs.len() implies (#[trigger] nbrs[t] as int)
                        < cells.len() by {
                        assert(as_ints(nbrs@)[t] == nbrs[t] as int);
                        assert(neighbour_list(side as int, i as int).contains(nbrs[t] as int));
                        lemma_moore_in_grid(side as int, i as int % side as int, i as int / side as int, nbrs[t] as int);
                    }
                }
                let k = count_alive(cells, nbrs);
                if k == 2 {
                    to_alive.push(i);
                }
            },
        }
        proof {
            assert forall|j: int|
                0 <= j < i + 1 implies (g0[j] == CellState::Alive ==> to_dying@.contains(j as usize)) && (
                g0[j] == CellState::Dying ==> to_dead@.contains(j as usize)) && (g0[j]
                    == CellState::Dead && alive_neighbours(g0, side as int, j) == 2
                    ==> to_alive@.contains(j as usize)) by {
                if j < i {
                    lemma_push_keeps(d0, to_dying@, j as usize);
                    lemma_push_keeps(e0, to_dead@, j as usize);
                    lemma_push_keeps(a0, to_alive@, j as usize);
                }
                if j == i {
                    if g0[j] == CellState::Alive {
                        assert(to_dying@.last() == i);
                    }
                    if g0[j] == CellState::Dying {
                        assert(to_dead@.last() == i);
                    }
                    if g0[j] == CellState::Dead && alive_neighbours(g0, side as int, j) == 2 {
                        assert(to_alive@.last() == i);
                    }
                }
            }
        }
        i = i + 1;
    }

    let mut t: usize = 0;
    while t < to_dying.len()
        invariant
            cells.len() == n,
            forall|m: int|
                0 <= m < to_dying.len() ==> (#[trigger] to_dying[m] as int) < n && g0[to_dying[m]
                    as int] == CellState::Alive,
            t <= to_dying.len(),
            forall|m: int| 0 <= m < t ==> cells[#[trigger] to_dying[m] as int] == CellState::Dying,
            forall|j: int|
                0 <= j < n ==> #[trigger] cells[j] == g0[j] || (g0[j] == CellState::Alive
                    && cells[j] == CellState::Dying),
        decreases to_dying.len() - t,
    {
        cells.set(to_dying[t], CellState::Dying);
        t = t + 1;
    }
    let ghost g1 = cells@;
    assert forall|j: int| 0 <= j < n implies #[trigger] g1[j] == if g0[j] == CellState::Alive {
        CellState::Dying
    } else {
        g0[j]
    } by {
        if g0[j] == CellState::Alive {
            assert(to_dying@.contains(j as usize));
            let m = choose|m: int| 0 <= m < to_dying.len() && to_dying@[m] == j as usize;
            assert(cells[to_dying[m] as int] == CellState::Dying);
        }
    }
    let mut t: usize = 0;
    while t < to_dead.len()
        invariant
            cells.len() == n,
            forall|m: int|
                0 <= m < to_dead.len() ==> (#[trigger] to_dead[m] as int) < n && g0[to_dead[m]
                    as int] == CellState::Dying,
            t <= to_dead.len(),
            forall|m: int| 0 <= m < t ==> cells[#[trigger] to_dead[m] as int] == CellState::Dead,
            forall|j: int|
                0 <= j < n ==> #[trigger] cells[j] == g1[j] || (g0[j] == CellState::Dying
                    && cells[j] == CellState::Dead),
        decreases to_dead.len() - t,
    {
        cells.set(to_dead[t], CellState::Dead);
        t = t + 1;
    }
    let ghost g2 = cells@;
    assert forall|j: int| 0 <= j < n implies #[trigger] g2[j] == if g0[j] == CellState::Dying {
        CellState::Dead
    } else {
        g1[j]
    } by {
        if g0[j] == CellState::Dying {
            assert(to_dead@.contains(j as usize));
            let m = choose|m: int| 0 <= m < to_dead.len() && to_dead@[m] == j as usize;
            assert(cells[to_dead[m] as int] == CellState::Dead);
        }
    }
    let mut t: usize = 0;
    while t < to_alive.len()
        invariant
            cells.len() == n,
            forall|m: int|
                0 <= m < to_alive.len() ==> (#[trigger] to_alive[m] as int) < n && g0[to_alive[m]
                    as int] == CellState::Dead && alive_neighbours(g0, side as int, to_alive[m] as int)
                    == 2,
            t <= to_alive.len(),
            forall|m: int| 0 <= m < t ==> cells[#[trigger] to_alive[m] as int] == CellState::Alive,
            forall|j: int|
                0 <= j < n ==> #[trigger] cells[j] == g2[j] || (g0[j] == CellState::Dead
                    && alive_neighbours(g0, side as int, j) == 2 && cells[j] == CellState::Alive),
        decreases to_alive.len() - t,
    {
        cells.set(to_alive[t], CellState::Alive);
        t = t + 1;
    }
    assert forall|j: int| 0 <= j < n implies #[trigger] cells@[j] == generation(g0, side as int)[j] by {
        if g0[j] == CellState::Dead && alive_neighbours(g0, side as int, j) == 2 {
            assert(to_alive@.contains(j as usize));
            let m = choose|m: int| 0 <= m < to_alive.len() && to_alive@[m] == j as usize;
            assert(cells[to_alive[m] as int] == CellState::Alive);
        }
    }
    assert(cells@ =~= generation(g0, side as int));
}

} // verus!
