use vstd::prelude::*;
use vstd::arithmetic::div_mod::{lemma_fundamental_div_mod, lemma_fundamental_div_mod_converse};

verus! {

/// Whether the cell at column `x`, row `y` lies on a grid of side `side`.
pub open spec fn in_grid(side: int, x: int, y: int) -> bool {
    0 <= x < side && 0 <= y < side
}

/// The row-major index of the cell at `(x, y)` as a one-element sequence if
/// it lies on the grid, and the empty sequence otherwise.
pub open spec fn cell_if_in(side: int, x: int, y: int) -> Seq<int> {
    if in_grid(side, x, y) {
        seq![y * side + x]
    } else {
        Seq::empty()
    }
}

/// The Moore neighbourhood of `(x, y)`, truncated at the grid's edges (no
/// wraparound), in row-major order.
pub open spec fn moore(side: int, x: int, y: int) -> Seq<int> {
    cell_if_in(side, x - 1, y - 1) + cell_if_in(side, x, y - 1) + cell_if_in(side, x + 1, y - 1)
        + cell_if_in(side, x - 1, y) + cell_if_in(side, x + 1, y) + cell_if_in(side, x - 1, y + 1)
        + cell_if_in(side, x, y + 1) + cell_if_in(side, x + 1, y + 1)
}

/// The neighbours of the cell of row-major index `i`.
pub open spec fn neighbour_list(side: int, i: int) -> Seq<int> {
    moore(side, i % side, i / side)
}

/// A sequence of indices seen as integers.
pub open spec fn as_ints(s: Seq<usize>) -> Seq<int> {
    s.map_values(|j: usize| j as int)
}

/// Whether `t` is the neighbour table of a grid of side `side`: one entry per
/// cell, each the cell's truncated Moore neighbourhood.
pub open spec fn is_neighbour_table(t: Seq<Vec<usize>>, side: int) -> bool {
    &&& t.len() == side * side
    &&& forall|i: int| 0 <= i < side * side ==> as_ints(#[trigger] t[i]@) == neighbour_list(side, i)
}

/// The neighbours of the cell of row-major index `i` on a grid of side
/// `side`, in row-major order.
pub fn neighbours_of(side: usize, i: usize) -> (r: Vec<usize>)
    requires
        1 <= side,
        i < side * side,
        side * side <= usize::MAX,
    ensures
        as_ints(r@) == neighbour_list(side as int, i as int),
{
    let x = i % side;
    let y = i / side;
    let ghost s = side as int;
    let ghost xi = x as int;
    let ghost yi = y as int;
    proof {
        lemma_fundamental_div_mod(i as int, s);
        assert(i as int == yi * s + xi) by (nonlinear_arith)
            requires
                i as int == s * yi + xi,
        ;
        assert(yi < s) by (nonlinear_arith)
            requires
                i as int == yi * s + xi,
                0 <= xi,
                (i as int) < s * s,
                s >= 1,
        ;
        assert((yi - 1) * s == yi * s - s) by (nonlinear_arith);
        assert((yi + 1) * s == yi * s + s) by (nonlinear_arith);
        if yi + 1 < s {
            assert((yi + 1) * s <= s * s - s) by (nonlinear_arith)
                requires
                    yi + 1 <= s - 1,
                    s >= 1,
            ;
        }
    }
    let mut r: Vec<usize> = Vec::new();
    let ghost mut g: Seq<int> = Seq::empty();
    if y > 0 && x > 0 {
        r.push(i - side - 1);
    }
    proof {
        g = g + cell_if_in(s, xi - 1, yi - 1);
        assert(as_ints(r@) =~= g);
    }
    if y > 0 {
        r.push(i - side);
    }
    proof {
        g = g + cell_if_in(s, xi, yi - 1);
        assert(as_ints(r@) =~= g);
    }
    if y > 0 && x + 1 < side {
        r.push(i - side + 1);
    }
    proof {
        g = g + cell_if_in(s, xi + 1, yi - 1);
        assert(as_ints(r@) =~= g);
    }
    if x > 0 {
        r.push(i - 1);
    }
    proof {
        g = g + cell_if_in(s, xi - 1, yi);
        assert(as_ints(r@) =~= g);
    }
    if x + 1 < side {
        r.push(i + 1);
    }
    proof {
        g = g + cell_if_in(s, xi + 1, yi);
        assert(as_ints(r@) =~= g);
    }
    if y + 1 < side && x > 0 {
        r.push(i + side - 1);
    }
    proof {
        g = g + cell_if_in(s, xi - 1, yi + 1);
        assert(as_ints(r@) =~= g);
    }
    if y + 1 < side {
        r.push(i + side);
    }
    proof {
        g = g + cell_if_in(s, xi, yi + 1);
        assert(as_ints(r@) =~= g);
    }
    if y + 1 < side && x + 1 < side {
        r.push(i + side + 1);
    }
    proof {
        g = g + cell_if_in(s, xi + 1, yi + 1);
        assert(as_ints(r@) =~= g);
    }
    r
}

proof fn lemma_concat_contains(a: Seq<int>, b: Seq<int>, e: int)
    ensures
        (a + b).contains(e) <==> a.contains(e) || b.contains(e),
{
    if a.contains(e) {
        let k = choose|k: int| 0 <= k < a.len() && a[k] == e;
        assert((a + b)[k] == e);
    }
    if b.contains(e) {
        let k = choose|k: int| 0 <= k < b.len() && b[k] == e;
        assert((a + b)[a.len() + k] == e);
    }
    if (a + b).contains(e) {
        let k = choose|k: int| 0 <= k < (a + b).len() && (a + b)[k] == e;
        if k < a.len() {
            assert(a[k] == e);
        } else {
            assert(b[k - a.len()] == e);
        }
    }
}

/// The cell of index `j` on the grid sits at column `a`, row `b`: it is
/// named by `cell_if_in(side, p, q)` exactly when `(p, q) == (a, b)`.
proof fn lemma_cell_if_in_contains(side: int, p: int, q: int, j: int, a: int, b: int)
    requires
        in_grid(side, a, b),
        j == b * side + a,
    ensures
        cell_if_in(side, p, q).contains(j) <==> (p == a && q == b),
{
    if in_grid(side, p, q) {
        assert(cell_if_in(side, p, q)[0] == q * side + p);
        if q * side + p == j {
            lemma_fundamental_div_mod_converse(j, side, q, p);
            lemma_fundamental_div_mod_converse(j, side, b, a);
        }
    }
}

/// Membership in the Moore neighbourhood of `(x, y)`: `j` is a neighbour
/// exactly when it is another cell of the grid whose column and row each
/// differ from `x` and `y` by at most one.
pub proof fn lemma_moore_contains(side: int, x: int, y: int, j: int)
    requires
        in_grid(side, x, y),
        0 <= j < side * side,
    ensures
        moore(side, x, y).contains(j) <==> (j != y * side + x && -1 <= j % side - x <= 1 && -1
            <= j / side - y <= 1),
{
    let a = j % side;
    let b = j / side;
    lemma_fundamental_div_mod(j, side);
    assert(j == b * side + a) by (nonlinear_arith)
        requires
            j == side * b + a,
    ;
    assert(0 <= b < side) by (nonlinear_arith)
        requires
            j == b * side + a,
            0 <= a < side,
            0 <= j < side * side,
    ;
    let c0 = cell_if_in(side, x - 1, y - 1);
    let c1 = cell_if_in(side, x, y - 1);
    let c2 = cell_if_in(side, x + 1, y - 1);
    let c3 = cell_if_in(side, x - 1, y);
    let c4 = cell_if_in(side, x + 1, y);
    let c5 = cell_if_in(side, x - 1, y + 1);
    let c6 = cell_if_in(side, x, y + 1);
    let c7 = cell_if_in(side, x + 1, y + 1);
    lemma_concat_contains(c0, c1, j);
    lemma_concat_contains(c0 + c1, c2, j);
    lemma_concat_contains(c0 + c1 + c2, c3, j);
    lemma_concat_contains(c0 + c1 + c2 + c3, c4, j);
    lemma_concat_contains(c0 + c1 + c2 + c3 + c4, c5, j);
    lemma_concat_contains(c0 + c1 + c2 + c3 + c4 + c5, c6, j);
    lemma_concat_contains(c0 + c1 + c2 + c3 + c4 + c5 + c6, c7, j);
    lemma_cell_if_in_contains(side, x - 1, y - 1, j, a, b);
    lemma_cell_if_in_contains(side, x, y - 1, j, a, b);
    lemma_cell_if_in_contains(side, x + 1, y - 1, j, a, b);
    lemma_cell_if_in_contains(side, x - 1, y, j, a, b);
    lemma_cell_if_in_contains(side, x + 1, y, j, a, b);
    lemma_cell_if_in_contains(side, x - 1, y + 1, j, a, b);
    lemma_cell_if_in_contains(side, x, y + 1, j, a, b);
    lemma_cell_if_in_contains(side, x + 1, y + 1, j, a, b);
    if j == y * side + x {
        lemma_fundamental_div_mod_converse(j, side, y, x);
    }
    if a == x && b == y {
        assert(j == y * side + x);
    }
}

/// The neighbour relation is symmetric: `n` is a neighbour of `c` exactly
/// when `c` is a neighbour of `n`.
pub proof fn lemma_neighbours_symmetric(side: int, c: int, n: int)
    requires
        side >= 1,
        0 <= c < side * side,
        0 <= n < side * side,
    ensures
        neighbour_list(side, c).contains(n) <==> neighbour_list(side, n).contains(c),
{
    lemma_grid_coordinates(side, c);
    lemma_grid_coordinates(side, n);
    lemma_moore_contains(side, c % side, c / side, n);
    lemma_moore_contains(side, n % side, n / side, c);
}

/// The column and row of the cell of index `i` lie on the grid and give
/// back `i`.
pub proof fn lemma_grid_coordinates(side: int, i: int)
    requires
        side >= 1,
        0 <= i < side * side,
    ensures
        in_grid(side, i % side, i / side),
        i == (i / side) * side + i % side,
{
    lemma_fundamental_div_mod(i, side);
    assert(i == (i / side) * side + i % side) by (nonlinear_arith)
        requires
            i == side * (i / side) + i % side,
    ;
    assert(0 <= i / side < side) by (nonlinear_arith)
        requires
            i == (i / side) * side + i % side,
            0 <= i % side < side,
            0 <= i < side * side,
    ;
}

/// The size of each neighbourhood: a corner cell has 3 neighbours, another
/// cell of the boundary 5, an interior cell 8, and the only cell of a
/// one-cell grid none.
pub proof fn lemma_neighbour_counts(side: int, x: int, y: int)
    requires
        in_grid(side, x, y),
    ensures
        side == 1 ==> moore(side, x, y).len() == 0,
        side >= 2 && (x == 0 || x == side - 1) && (y == 0 || y == side - 1) ==> moore(
            side,
            x,
            y,
        ).len() == 3,
        side >= 2 && (x == 0 || x == side - 1 || y == 0 || y == side - 1) && !((x == 0 || x
            == side - 1) && (y == 0 || y == side - 1)) ==> moore(side, x, y).len() == 5,
        0 < x < side - 1 && 0 < y < side - 1 ==> moore(side, x, y).len() == 8,
{
}

/// Every neighbour of a cell is a cell of the grid.
pub proof fn lemma_moore_in_grid(side: int, x: int, y: int, e: int)
    requires
        moore(side, x, y).contains(e),
    ensures
        0 <= e < side * side,
{
    let c0 = cell_if_in(side, x - 1, y - 1);
    let c1 = cell_if_in(side, x, y - 1);
    let c2 = cell_if_in(side, x + 1, y - 1);
    let c3 = cell_if_in(side, x - 1, y);
    let c4 = cell_if_in(side, x + 1, y);
    let c5 = cell_if_in(side, x - 1, y + 1);
    let c6 = cell_if_in(side, x, y + 1);
    let c7 = cell_if_in(side, x + 1, y + 1);
    lemma_concat_contains(c0, c1, e);
    lemma_concat_contains(c0 + c1, c2, e);
    lemma_concat_contains(c0 + c1 + c2, c3, e);
    lemma_concat_contains(c0 + c1 + c2 + c3, c4, e);
    lemma_concat_contains(c0 + c1 + c2 + c3 + c4, c5, e);
    lemma_concat_contains(c0 + c1 + c2 + c3 + c4 + c5, c6, e);
    lemma_concat_contains(c0 + c1 + c2 + c3 + c4 + c5 + c6, c7, e);
    assert forall|p: int, q: int| #[trigger] cell_if_in(side, p, q).contains(e) implies 0 <= e < side
        * side by {
        assert(cell_if_in(side, p, q)[0] == e);
        assert(0 <= q * side + p < side * side) by (nonlinear_arith)
            requires
                in_grid(side, p, q),
        ;
    }
}

/// A neighbour table is symmetric: `n` is listed for `c` exactly when `c` is
/// listed for `n`.
pub proof fn lemma_table_symmetric(t: Seq<Vec<usize>>, side: int, c: int, n: int)
    requires
        side >= 1,
        is_neighbour_table(t, side),
        0 <= c < side * side,
        0 <= n < side * side,
    ensures
        as_ints(t[c]@).contains(n) <==> as_ints(t[n]@).contains(c),
{
    assert(as_ints(t[c]@) == neighbour_list(side, c));
    assert(as_ints(t[n]@) == neighbour_list(side, n));
    lemma_neighbours_symmetric(side, c, n);
}

/// The entry of a neighbour table for the cell at `(x, y)` lists 3
/// neighbours for a corner, 5 for another cell of the boundary, 8 for an
/// interior cell, and none on a one-cell grid.
pub proof fn lemma_table_sizes(t: Seq<Vec<usize>>, side: int, x: int, y: int)
    requires
        is_neighbour_table(t, side),
        in_grid(side, x, y),
    ensures
        ({
            let len = t[y * side + x]@.len();
            &&& side == 1 ==> len == 0
            &&& side >= 2 && (x == 0 || x == side - 1) && (y == 0 || y == side - 1) ==> len == 3
            &&& side >= 2 && (x == 0 || x == side - 1 || y == 0 || y == side - 1) && !((x == 0 || x
                == side - 1) && (y == 0 || y == side - 1)) ==> len == 5
            &&& 0 < x < side - 1 && 0 < y < side - 1 ==> len == 8
        }),
{
    let i = y * side + x;
    assert(0 <= i < side * side) by (nonlinear_arith)
        requires
            in_grid(side, x, y),
            i == y * side + x,
    ;
    lemma_fundamental_div_mod_converse(i, side, y, x);
    assert(as_ints(t[i]@) == neighbour_list(side, i));
    assert(as_ints(t[i]@).len() == t[i]@.len());
    lemma_neighbour_counts(side, x, y);
}

} // verus!
