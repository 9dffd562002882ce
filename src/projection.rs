use vstd::prelude::*;
use crate::cell::{CellState, count_of, glyph};

verus! {

/// A corner of a cell, on the lattice of cell corners: column `x` and row
/// `y`, each in `0..=side`, with the state whose colour it carries.
///
/// A renderer maps the lattice linearly onto `[-1, 1]²`: the corner `(x, y)`
/// sits at `(-1 + 2x/side, -1 + 2y/side)`.
#[derive(Clone, Copy, Debug, PartialEq, Eq, Structural)]
pub struct Vertex {
    pub x: usize,
    pub y: usize,
    pub state: CellState,
}

/// The corner `(x, y)` coloured for `st`.
pub open spec fn corner(x: int, y: int, st: CellState) -> Vertex {
    Vertex { x: x as usize, y: y as usize, state: st }
}

/// The two triangles that cover cell `i`: lower-left, upper-left and
/// upper-right corners, then lower-left, lower-right and upper-right.
pub open spec fn quad(side: int, i: int, st: CellState) -> Seq<Vertex> {
    let x = i % side;
    let y = i / side;
    seq![
        corner(x, y, st),
        corner(x, y + 1, st),
        corner(x + 1, y + 1, st),
        corner(x, y, st),
        corner(x + 1, y, st),
        corner(x + 1, y + 1, st),
    ]
}

/// The geometry of `cells` in scan order: one quad for each `Alive` or
/// `Dying` cell, none for a `Dead` one.
pub open spec fn project(cells: Seq<CellState>, side: int) -> Seq<Vertex>
    decreases cells.len(),
{
    if cells.len() == 0 {
        Seq::empty()
    } else {
        let i = cells.len() - 1;
        project(cells.drop_last(), side) + if cells[i] == CellState::Dead {
            Seq::empty()
        } else {
            quad(side, i, cells[i])
        }
    }
}

/// The text of `cells`: one glyph per cell, and a line break after each
/// row of `side` cells.
pub open spec fn render(cells: Seq<CellState>, side: int) -> Seq<char>
    decreases cells.len(),
{
    if cells.len() == 0 {
        Seq::empty()
    } else {
        let line = render(cells.drop_last(), side).push(glyph(cells.last()));
        if (cells.len() as int) % side == 0 {
            line.push('\n')
        } else {
            line
        }
    }
}

/// Six vertices for each cell that is `Alive` or `Dying`.
pub proof fn lemma_project_len(cells: Seq<CellState>, side: int)
    ensures
        project(cells, side).len() == 6 * (count_of(cells, CellState::Alive) + count_of(
            cells,
            CellState::Dying,
        )),
    decreases cells.len(),
{
    if cells.len() > 0 {
        lemma_project_len(cells.drop_last(), side);
    }
}

/// The geometry of a grid of side `side` whose cells are `cells`.
pub fn project_cells(side: usize, cells: &Vec<CellState>) -> (r: Vec<Vertex>)
    requires
        side >= 1,
        cells.len() == side * side,
        side * side <= usize::MAX,
    ensures
        r@ == project(cells@, side as int),
{
    let mut r: Vec<Vertex> = Vec::new();
    let mut i: usize = 0;
    while i < cells.len()
        invariant
            side >= 1,
            cells.len() == side * side,
            i <= cells.len(),
            r@ == project(cells@.subrange(0, i as int), side as int),
        decreases cells.len() - i,
    {
        let st = cells[i];
        let x = i % side;
        let y = i / side;
        proof {
            crate::topology::lemma_grid_coordinates(side as int, i as int);
            assert(cells@.subrange(0, i as int + 1).drop_last() =~= cells@.subrange(0, i as int));
        }
        if st != CellState::Dead {
            r.push(Vertex { x, y, state: st });
            r.push(Vertex { x, y: y + 1, state: st });
            r.push(Vertex { x: x + 1, y: y + 1, state: st });
            r.push(Vertex { x, y, state: st });
            r.push(Vertex { x: x + 1, y, state: st });
            r.push(Vertex { x: x + 1, y: y + 1, state: st });
        }
        proof {
            let q = if st == CellState::Dead {
                Seq::<Vertex>::empty()
            } else {
                quad(side as int, i as int, st)
            };
            assert(r@ =~= project(cells@.subrange(0, i as int), side as int) + q);
        }
        i = i + 1;
    }
    assert(cells@.subrange(0, i as int) =~= cells@);
    r
}

/// Relies on `String::push`: the character is appended at the end.
#[verifier::external_body]
fn push_char(s: &mut String, c: char)
    ensures
        final(s)@ == old(s)@.push(c),
{
    s.push(c);
}

/// The text of a grid of side `side` whose cells are `cells`: `O` for an
/// `Alive` cell, `X` for a `Dying` one, `.` for a `Dead` one, one row per
/// line.
pub fn render_cells(side: usize, cells: &Vec<CellState>) -> (r: String)
    requires
        side >= 1,
    ensures
        r@ == render(cells@, side as int),
{
    let mut s = String::new();
    let mut i: usize = 0;
    while i < cells.len()
        invariant
            side >= 1,
            i <= cells.len(),
            s@ == render(cells@.subrange(0, i as int), side as int),
        decreases cells.len() - i,
    {
        proof {
            assert(cells@.subrange(0, i as int + 1).drop_last() =~= cells@.subrange(0, i as int));
        }
        push_char(&mut s, cells[i].symbol());
        if (i + 1) % side == 0 {
            push_char(&mut s, '\n');
        }
        i = i + 1;
    }
    assert(cells@.subrange(0, i as int) =~= cells@);
    s
}

} // verus!
