use vstd::prelude::*;
use crate::cell::{CellState, next_state};
use crate::engine::{alive_among, alive_neighbours, generation};
use crate::pattern::{offset_from, osc3_alive, osc3_dying};
use crate::topology::{cell_if_in, in_grid, lemma_grid_coordinates, moore};
use crate::world::{all_dead, with_osc3};

verus! {

/// The grid of side `side` whose cell at `(x, y)` is `f(x, y)`.
pub open spec fn tabulate(side: int, f: spec_fn(int, int) -> CellState) -> Seq<CellState> {
    Seq::new((side * side) as nat, |j: int| f(j % side, j / side))
}

/// 1 if `(x, y)` is on the grid and `f(x, y)` is `Alive`, else 0.
pub open spec fn alive_at(side: int, f: spec_fn(int, int) -> CellState, x: int, y: int) -> nat {
    if in_grid(side, x, y) && f(x, y) == CellState::Alive {
        1
    } else {
        0
    }
}

/// How many of the in-grid Moore neighbours of `(x, y)` are `Alive` under `f`.
pub open spec fn alive_around(side: int, f: spec_fn(int, int) -> CellState, x: int, y: int) -> nat {
    alive_at(side, f, x - 1, y - 1) + alive_at(side, f, x, y - 1) + alive_at(side, f, x + 1, y - 1)
        + alive_at(side, f, x - 1, y) + alive_at(side, f, x + 1, y) + alive_at(side, f, x - 1, y + 1)
        + alive_at(side, f, x, y + 1) + alive_at(side, f, x + 1, y + 1)
}

proof fn lemma_alive_among_concat(cells: Seq<CellState>, a: Seq<int>, b: Seq<int>)
    ensures
        alive_among(cells, a + b) == alive_among(cells, a) + alive_among(cells, b),
    decreases b.len(),
{
    if b.len() > 0 {
        assert((a + b).drop_last() =~= a + b.drop_last());
        lemma_alive_among_concat(cells, a, b.drop_last());
    }
}

proof fn lemma_alive_among_cell(side: int, f: spec_fn(int, int) -> CellState, x: int, y: int)
    requires
        side >= 1,
    ensures
        alive_among(tabulate(side, f), cell_if_in(side, x, y)) == alive_at(side, f, x, y),
{
    let c = cell_if_in(side, x, y);
    if in_grid(side, x, y) {
        let j = y * side + x;
        vstd::arithmetic::div_mod::lemma_fundamental_div_mod_converse(j, side, y, x);
        assert(0 <= j < side * side) by (nonlinear_arith)
            requires
                in_grid(side, x, y),
                j == y * side + x,
        ;
        assert(c.drop_last() =~= Seq::<int>::empty());
        assert(c.last() == j);
        assert(tabulate(side, f)[j] == f(x, y));
        assert(alive_among(tabulate(side, f), c.drop_last()) == 0);
    }
}

/// In a tabulated grid, the count of `Alive` neighbours of a cell is the
/// count of `Alive` cells around its coordinates.
proof fn lemma_alive_neighbours_tabulated(side: int, f: spec_fn(int, int) -> CellState, i: int)
    requires
        side >= 1,
        0 <= i < side * side,
    ensures
        alive_neighbours(tabulate(side, f), side, i) == alive_around(side, f, i % side, i / side),
{
    let cells = tabulate(side, f);
    let x = i % side;
    let y = i / side;
    let c0 = cell_if_in(side, x - 1, y - 1);
    let c1 = cell_if_in(side, x, y - 1);
    let c2 = cell_if_in(side, x + 1, y - 1);
    let c3 = cell_if_in(side, x - 1, y);
    let c4 = cell_if_in(side, x + 1, y);
    let c5 = cell_if_in(side, x - 1, y + 1);
    let c6 = cell_if_in(side, x, y + 1);
    let c7 = cell_if_in(side, x + 1, y + 1);
    lemma_alive_among_concat(cells, c0, c1);
    lemma_alive_among_concat(cells, c0 + c1, c2);
    lemma_alive_among_concat(cells, c0 + c1 + c2, c3);
    lemma_alive_among_concat(cells, c0 + c1 + c2 + c3, c4);
    lemma_alive_among_concat(cells, c0 + c1 + c2 + c3 + c4, c5);
    lemma_alive_among_concat(cells, c0 + c1 + c2 + c3 + c4 + c5, c6);
    lemma_alive_among_concat(cells, c0 + c1 + c2 + c3 + c4 + c5 + c6, c7);
    lemma_alive_among_cell(side, f, x - 1, y - 1);
    lemma_alive_among_cell(side, f, x, y - 1);
    lemma_alive_among_cell(side, f, x + 1, y - 1);
    lemma_alive_among_cell(side, f, x - 1, y);
    lemma_alive_among_cell(side, f, x + 1, y);
    lemma_alive_among_cell(side, f, x - 1, y + 1);
    lemma_alive_among_cell(side, f, x, y + 1);
    lemma_alive_among_cell(side, f, x + 1, y + 1);
}

/// One generation of a tabulated grid is the grid tabulated by `g` when
/// every cell's next state under `f` is its state under `g`.
proof fn lemma_generation_tabulated(
    side: int,
    f: spec_fn(int, int) -> CellState,
    g: spec_fn(int, int) -> CellState,
)
    requires
        side >= 1,
        forall|x: int, y: int|
            in_grid(side, x, y) ==> next_state(f(x, y), alive_around(side, f, x, y)) == #[trigger] g(
                x,
                y,
            ),
    ensures
        generation(tabulate(side, f), side) == tabulate(side, g),
{
    assert forall|i: int| 0 <= i < side * side implies #[trigger] generation(tabulate(side, f), side)[i]
        == tabulate(side, g)[i] by {
        lemma_grid_coordinates(side, i);
        lemma_alive_neighbours_tabulated(side, f, i);
    }
    assert(generation(tabulate(side, f), side) =~= tabulate(side, g));
}

/// The oscillator as stamped at `(0, 0)`: an `Alive` cell on each side of a
/// 2×2 `Dying` core.
pub open spec fn osc_phase0(x: int, y: int) -> CellState {
    if (x == 1 || x == 2) && (y == 1 || y == 2) {
        CellState::Dying
    } else if (x == 1 && y == 0) || (x == 0 && y == 2) || (x == 3 && y == 1) || (x == 2 && y == 3) {
        CellState::Alive
    } else {
        CellState::Dead
    }
}

/// The oscillator one generation on: the core is gone and the ring has
/// turned by a quarter.
pub open spec fn osc_phase1(x: int, y: int) -> CellState {
    if (x == 2 && y == 0) || (x == 0 && y == 1) || (x == 1 && y == 3) || (x == 3 && y == 2) {
        CellState::Alive
    } else if (x == 1 && y == 0) || (x == 0 && y == 2) || (x == 3 && y == 1) || (x == 2 && y == 3) {
        CellState::Dying
    } else {
        CellState::Dead
    }
}

/// The oscillator two generations on: the core is `Alive`.
pub open spec fn osc_phase2(x: int, y: int) -> CellState {
    if (x == 1 || x == 2) && (y == 1 || y == 2) {
        CellState::Alive
    } else if (x == 2 && y == 0) || (x == 0 && y == 1) || (x == 1 && y == 3) || (x == 3 && y == 2) {
        CellState::Dying
    } else {
        CellState::Dead
    }
}

proof fn lemma_contains4(s: Seq<(int, int)>, v: (int, int))
    requires
        s.len() == 4,
    ensures
        s.contains(v) <==> (v == s[0] || v == s[1] || v == s[2] || v == s[3]),
{
    if v == s[0] || v == s[1] || v == s[2] || v == s[3] {
        assert(s[0] == s[0]);
    }
}

proof fn lemma_stamp_phase0(side: int)
    requires
        side >= 4,
    ensures
        with_osc3(all_dead((side * side) as nat), side, 0, 0) == tabulate(side, |x: int, y: int| osc_phase0(x, y)),
{
    let a = with_osc3(all_dead((side * side) as nat), side, 0, 0);
    let b = tabulate(side, |x: int, y: int| osc_phase0(x, y));
    assert(side * side >= 0) by (nonlinear_arith)
        requires
            side >= 4,
    ;
    assert forall|j: int| 0 <= j < side * side implies #[trigger] a[j] == b[j] by {
        let v = offset_from(side, 0, 0, j);
        lemma_contains4(osc3_alive(), v);
        lemma_contains4(osc3_dying(), v);
    }
    assert(a =~= b);
}

proof fn lemma_step_0_1(side: int)
    requires
        side >= 4,
    ensures
        generation(tabulate(side, |x: int, y: int| osc_phase0(x, y)), side) == tabulate(
            side,
            |x: int, y: int| osc_phase1(x, y),
        ),
{
    let f = |x: int, y: int| osc_phase0(x, y);
    let g = |x: int, y: int| osc_phase1(x, y);
    assert forall|x: int, y: int| in_grid(side, x, y) implies next_state(
        f(x, y),
        alive_around(side, f, x, y),
    ) == #[trigger] g(x, y) by {}
    lemma_generation_tabulated(side, f, g);
}

proof fn lemma_step_1_2(side: int)
    requires
        side >= 4,
    ensures
        generation(tabulate(side, |x: int, y: int| osc_phase1(x, y)), side) == tabulate(
            side,
            |x: int, y: int| osc_phase2(x, y),
        ),
{
    let f = |x: int, y: int| osc_phase1(x, y);
    let g = |x: int, y: int| osc_phase2(x, y);
    assert forall|x: int, y: int| in_grid(side, x, y) implies next_state(
        f(x, y),
        alive_around(side, f, x, y),
    ) == #[trigger] g(x, y) by {}
    lemma_generation_tabulated(side, f, g);
}

proof fn lemma_step_2_0(side: int)
    requires
        side >= 4,
    ensures
        generation(tabulate(side, |x: int, y: int| osc_phase2(x, y)), side) == tabulate(
            side,
            |x: int, y: int| osc_phase0(x, y),
        ),
{
    let f = |x: int, y: int| osc_phase2(x, y);
    let g = |x: int, y: int| osc_phase0(x, y);
    assert forall|x: int, y: int| in_grid(side, x, y) implies next_state(
        f(x, y),
        alive_around(side, f, x, y),
    ) == #[trigger] g(x, y) by {}
    lemma_generation_tabulated(side, f, g);
}

/// The oscillator stamped at `(0, 0)` on an otherwise `Dead` grid of side at
/// least 4 has period 3: three generations bring back the stamped grid, and
/// the first and second generations differ from it.
pub proof fn lemma_osc3_period(side: int)
    requires
        side >= 4,
    ensures
        ({
            let g0 = with_osc3(all_dead((side * side) as nat), side, 0, 0);
            let g1 = generation(g0, side);
            let g2 = generation(g1, side);
            &&& g1 != g0
            &&& g2 != g0
            &&& generation(g2, side) == g0
        }),
{
    let g0 = with_osc3(all_dead((side * side) as nat), side, 0, 0);
    lemma_stamp_phase0(side);
    lemma_step_0_1(side);
    lemma_step_1_2(side);
    lemma_step_2_0(side);
    let g1 = generation(g0, side);
    let g2 = generation(g1, side);
    let core = side + 1;
    let edge = 1int;
    assert(side * side > side + 1) by (nonlinear_arith)
        requires
            side >= 4,
    ;
    vstd::arithmetic::div_mod::lemma_fundamental_div_mod_converse(core, side, 1, 1);
    vstd::arithmetic::div_mod::lemma_fundamental_div_mod_converse(edge, side, 0, 1);
    assert(g0[core] == CellState::Dying && g1[core] == CellState::Dead);
    assert(g0[edge] == CellState::Alive && g2[edge] == CellState::Dead);
}

} // verus!
