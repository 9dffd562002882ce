use vstd::prelude::*;
use crate::cell::CellState;
use crate::topology::lemma_grid_coordinates;

verus! {

/// Offsets `(dx, dy)` of a pattern seen as integers.
pub open spec fn offsets(s: Seq<(usize, usize)>) -> Seq<(int, int)> {
    s.map_values(|p: (usize, usize)| (p.0 as int, p.1 as int))
}

/// The offset of the cell of index `i` from the anchor `(x, y)`.
pub open spec fn offset_from(side: int, x: int, y: int, i: int) -> (int, int) {
    (i % side - x, i / side - y)
}

/// Every offset of `offs`, taken from the anchor `(x, y)`, lands on the grid.
pub open spec fn fits(side: int, x: int, y: int, offs: Seq<(int, int)>) -> bool {
    forall|k: int|
        0 <= k < offs.len() ==> 0 <= (#[trigger] offs[k]).0 && 0 <= offs[k].1 && x + offs[k].0
            < side && y + offs[k].1 < side
}

/// The cells after a pattern is stamped at `(x, y)`: the cells at the
/// `dying` offsets become `Dying`, the other cells at the `alive` offsets
/// become `Alive`, and every other cell keeps its state.
pub open spec fn stamped(
    cells: Seq<CellState>,
    side: int,
    x: int,
    y: int,
    alive: Seq<(int, int)>,
    dying: Seq<(int, int)>,
) -> Seq<CellState> {
    Seq::new(
        cells.len(),
        |i: int|
            if dying.contains(offset_from(side, x, y, i)) {
                CellState::Dying
            } else if alive.contains(offset_from(side, x, y, i)) {
                CellState::Alive
            } else {
                cells[i]
            },
    )
}

/// The index that the offset `o` from the anchor `(x, y)` names.
pub open spec fn target(side: int, x: int, y: int, o: (int, int)) -> int {
    (y + o.1) * side + (x + o.0)
}

proof fn lemma_target(side: int, x: int, y: int, o: (int, int), j: int)
    requires
        side >= 1,
        0 <= x,
        0 <= y,
        0 <= o.0,
        0 <= o.1,
        x + o.0 < side,
        y + o.1 < side,
        0 <= j < side * side,
    ensures
        (j == target(side, x, y, o)) <==> offset_from(side, x, y, j) == o,
{
    lemma_grid_coordinates(side, j);
    if j == target(side, x, y, o) {
        vstd::arithmetic::div_mod::lemma_fundamental_div_mod_converse(j, side, y + o.1, x + o.0);
    }
}

proof fn lemma_target_in_grid(side: int, x: int, y: int, o: (int, int))
    requires
        0 <= x,
        0 <= y,
        0 <= o.0,
        0 <= o.1,
        x + o.0 < side,
        y + o.1 < side,
    ensures
        0 <= target(side, x, y, o) < side * side,
{
    assert(0 <= (y + o.1) * side + (x + o.0) < side * side) by (nonlinear_arith)
        requires
            0 <= y + o.1 < side,
            0 <= x + o.0 < side,
    ;
}

/// Whether every offset of `offs`, taken from `(x, y)`, lands on a grid of
/// side `side`.
fn offsets_fit(side: usize, x: usize, y: usize, offs: &[(usize, usize)]) -> (r: bool)
    ensures
        r == fits(side as int, x as int, y as int, offsets(offs@)),
{
    let mut k: usize = 0;
    while k < offs.len()
        invariant
            k <= offs.len(),
            fits(side as int, x as int, y as int, offsets(offs@.subrange(0, k as int))),
        decreases offs.len() - k,
    {
        let (dx, dy) = offs[k];
        if dx >= side || x >= side - dx || dy >= side || y >= side - dy {
            assert(offsets(offs@)[k as int] == (dx as int, dy as int));
            return false;
        }
        assert(offsets(offs@.subrange(0, k as int + 1)) =~= offsets(offs@.subrange(0, k as int)).push(
            (dx as int, dy as int),
        ));
        k = k + 1;
    }
    assert(offs@.subrange(0, k as int) =~= offs@);
    true
}

/// Writes `st` at each offset of `offs` from `(x, y)`.
fn write_offsets(
    cells: &mut Vec<CellState>,
    side: usize,
    x: usize,
    y: usize,
    offs: &[(usize, usize)],
    st: CellState,
)
    requires
        side >= 1,
        old(cells).len() == side * side,
        fits(side as int, x as int, y as int, offsets(offs@)),
    ensures
        final(cells).len() == old(cells).len(),
        forall|j: int|
            0 <= j < final(cells).len() ==> #[trigger] final(cells)@[j] == if offsets(offs@).contains(
                offset_from(side as int, x as int, y as int, j),
            ) {
                st
            } else {
                old(cells)@[j]
            },
{
    let ghost c0 = cells@;
    let ghost s = side as int;
    let ghost os = offsets(offs@);
    let mut t: usize = 0;
    while t < offs.len()
        invariant
            cells.len() == c0.len(),
            c0.len() == s * s,
            s == side as int,
            s >= 1,
            os == offsets(offs@),
            fits(s, x as int, y as int, os),
            t <= offs.len(),
            forall|j: int|
                0 <= j < cells.len() ==> #[trigger] cells@[j] == if os.subrange(0, t as int).contains(
                    offset_from(s, x as int, y as int, j),
                ) {
                    st
                } else {
                    c0[j]
                },
        decreases offs.len() - t,
    {
        let (dx, dy) = offs[t];
        let ghost o = os[t as int];
        assert(o == (dx as int, dy as int));
        proof {
            lemma_target_in_grid(s, x as int, y as int, o);
            assert((y + dy) * side + (x + dx) == target(s, x as int, y as int, o));
        }
        let idx = (y + dy) * side + (x + dx);
        cells.set(idx, st);
        proof {
            assert forall|j: int| 0 <= j < cells.len() implies #[trigger] cells@[j] == if os.subrange(
                0,
                t as int + 1,
            ).contains(offset_from(s, x as int, y as int, j)) {
                st
            } else {
                c0[j]
            } by {
                lemma_target(s, x as int, y as int, o, j);
                let v = offset_from(s, x as int, y as int, j);
                let pre = os.subrange(0, t as int);
                assert(os.subrange(0, t as int + 1) =~= pre.push(o));
                if pre.contains(v) {
                    let m = choose|m: int| 0 <= m < pre.len() && pre[m] == v;
                    assert(pre.push(o)[m] == v);
                }
                if v == o {
                    assert(pre.push(o)[t as int] == v);
                }
                if pre.push(o).contains(v) && v != o {
                    let m = choose|m: int| 0 <= m < pre.len() + 1 && pre.push(o)[m] == v;
                    assert(pre[m] == v);
                }
            }
        }
        t = t + 1;
    }
    assert(os.subrange(0, t as int) =~= os);
}

/// Stamps a pattern at `(x, y)`: first its `alive` offsets, then its `dying`
/// ones. Nothing is written unless every offset lands on the grid.
pub fn stamp(
    cells: &mut Vec<CellState>,
    side: usize,
    x: usize,
    y: usize,
    alive: &[(usize, usize)],
    dying: &[(usize, usize)],
) -> (ok: bool)
    requires
        side >= 1,
        old(cells).len() == side * side,
    ensures
        ok == (fits(side as int, x as int, y as int, offsets(alive@)) && fits(
            side as int,
            x as int,
            y as int,
            offsets(dying@),
        )),
        ok ==> final(cells)@ == stamped(
            old(cells)@,
            side as int,
            x as int,
            y as int,
            offsets(alive@),
            offsets(dying@),
        ),
        !ok ==> final(cells)@ == old(cells)@,
{
    if !offsets_fit(side, x, y, alive) || !offsets_fit(side, x, y, dying) {
        return false;
    }
    let ghost c0 = cells@;
    write_offsets(cells, side, x, y, alive, CellState::Alive);
    write_offsets(cells, side, x, y, dying, CellState::Dying);
    assert(cells@ =~= stamped(
        c0,
        side as int,
        x as int,
        y as int,
        offsets(alive@),
        offsets(dying@),
    ));
    true
}

/// The period-3 oscillator: four `Alive` cells around four `Dying` ones in a
/// 4×4 footprint.
pub open spec fn osc3_alive() -> Seq<(int, int)> {
    seq![(1, 0), (0, 2), (3, 1), (2, 3)]
}

/// The `Dying` core of the period-3 oscillator.
pub open spec fn osc3_dying() -> Seq<(int, int)> {
    seq![(1, 1), (1, 2), (2, 1), (2, 2)]
}

/// The downward glider: a `Dying` row above an `Alive` row.
pub open spec fn glider_down_alive() -> Seq<(int, int)> {
    seq![(0, 1), (1, 1)]
}

pub open spec fn glider_down_dying() -> Seq<(int, int)> {
    seq![(0, 0), (1, 0)]
}

/// The upward glider: an `Alive` row above a `Dying` row.
pub open spec fn glider_up_alive() -> Seq<(int, int)> {
    seq![(0, 0), (1, 0)]
}

pub open spec fn glider_up_dying() -> Seq<(int, int)> {
    seq![(0, 1), (1, 1)]
}

/// The leftward glider: an `Alive` column left of a `Dying` column.
pub open spec fn glider_left_alive() -> Seq<(int, int)> {
    seq![(0, 0), (0, 1)]
}

pub open spec fn glider_left_dying() -> Seq<(int, int)> {
    seq![(1, 0), (1, 1)]
}

/// The wick seed: five `Alive` cells over one `Dying` cell.
pub open spec fn wick3_alive() -> Seq<(int, int)> {
    seq![(0, 0), (1, 0), (2, 0), (0, 1), (2, 1)]
}

pub open spec fn wick3_dying() -> Seq<(int, int)> {
    seq![(1, 2)]
}

} // verus!
