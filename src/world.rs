use vstd::prelude::*;
use crate::cell::{CellState, count_of, lemma_count_update, lemma_count_uniform};
use crate::random::shuffle;
use crate::engine::{advance, alive_neighbours, generation};
use crate::projection::{Vertex, lemma_project_len, project, project_cells, render, render_cells};
use crate::pattern::{fits, offsets, stamp, stamped, osc3_alive, osc3_dying, glider_down_alive, glider_down_dying, glider_up_alive, glider_up_dying, glider_left_alive, glider_left_dying, wick3_alive, wick3_dying};
use crate::topology::{as_ints, is_neighbour_table, neighbour_list, neighbours_of};

verus! {

/// Why an operation on a world was refused.
#[derive(Clone, Copy, Debug, PartialEq, Eq, Structural)]
pub enum WorldError {
    /// A side of zero, or a rate outside `[0, 1]`.
    InvalidArgument,
    /// A pattern whose footprint does not fit on the grid.
    IndexOutOfBounds,
    /// A neighbour table built for another side than the world's.
    SizeMismatch,
}

/// The neighbour table of a grid side, built once and shared by every world
/// of that side.
#[derive(Clone, Debug, PartialEq, Eq)]
pub struct NeighbourTable {
    size: u16,
    entries: Vec<Vec<usize>>,
}

impl NeighbourTable {
    /// The side the table was built for.
    pub closed spec fn side(&self) -> nat {
        self.size as nat
    }

    /// The table holds, for each cell of a grid of its side, the cell's
    /// in-bounds Moore neighbours.
    pub closed spec fn wf(&self) -> bool {
        &&& self.size >= 1
        &&& is_neighbour_table(self.entries@, self.side() as int)
    }

    /// The neighbour table of a grid of side `side`. A side of zero is
    /// refused.
    pub fn build(side: u16) -> (r: Result<NeighbourTable, WorldError>)
        ensures
            match r {
                Ok(t) => side >= 1 && t.wf() && t.side() == side,
                Err(e) => side == 0 && e == WorldError::InvalidArgument,
            },
    {
        if side == 0 {
            Err(WorldError::InvalidArgument)
        } else {
            Ok(NeighbourTable { size: side, entries: WorldState::precompute_neighbours(side) })
        }
    }

    /// The neighbours of the cell of row-major index `i`, in row-major order.
    pub fn neighbours(&self, i: usize) -> (r: &Vec<usize>)
        requires
            self.wf(),
            i < self.side() * self.side(),
        ensures
            as_ints(r@) == neighbour_list(self.side() as int, i as int),
    {
        &self.entries[i]
    }
}

/// A whole world of the automaton: a square grid of cells, stored row by
/// row, with the neighbour table of its side.
#[derive(Clone, Debug, PartialEq, Eq)]
pub struct WorldState {
    size: u16,
    world: Vec<CellState>,
    neighbours: Vec<Vec<usize>>,
}

/// `n` cells, all `Dead`.
pub open spec fn all_dead(n: nat) -> Seq<CellState> {
    Seq::new(n, |i: int| CellState::Dead)
}

/// `cells` with every cell whose index is in `chosen` set to `Alive`.
pub open spec fn with_alive(cells: Seq<CellState>, chosen: Seq<int>) -> Seq<CellState> {
    Seq::new(cells.len(), |i: int| if chosen.contains(i) {
        CellState::Alive
    } else {
        cells[i]
    })
}

/// `n` cells, all `Alive`.
pub open spec fn all_alive(n: nat) -> Seq<CellState> {
    Seq::new(n, |i: int| CellState::Alive)
}

/// The number of cells that a rate of `numerator / denominator` brings to
/// life on a grid of `n` cells: `floor(numerator * n / denominator)`.
pub open spec fn alive_target(numerator: int, denominator: int, n: int) -> int {
    numerator * n / denominator
}

/// `cells` of a grid of side `side` with the oscillator stamped at `(x, y)`.
pub open spec fn with_osc3(cells: Seq<CellState>, side: int, x: int, y: int) -> Seq<CellState> {
    stamped(cells, side, x, y, osc3_alive(), osc3_dying())
}

/// `cells` with a downward glider stamped at `(x, y)`.
pub open spec fn with_glider_down(cells: Seq<CellState>, side: int, x: int, y: int) -> Seq<CellState> {
    stamped(cells, side, x, y, glider_down_alive(), glider_down_dying())
}

/// `cells` with an upward glider stamped at `(x, y)`.
pub open spec fn with_glider_up(cells: Seq<CellState>, side: int, x: int, y: int) -> Seq<CellState> {
    stamped(cells, side, x, y, glider_up_alive(), glider_up_dying())
}

/// `cells` with a leftward glider stamped at `(x, y)`.
pub open spec fn with_glider_left(cells: Seq<CellState>, side: int, x: int, y: int) -> Seq<CellState> {
    stamped(cells, side, x, y, glider_left_alive(), glider_left_dying())
}

/// Five oscillators on a 14×14 grid: one in each corner and one in the
/// middle.
pub open spec fn example1_cells() -> Seq<CellState> {
    let c = all_dead(196);
    with_osc3(
        with_osc3(with_osc3(with_osc3(with_osc3(c, 14, 0, 0), 14, 10, 10), 14, 0, 10), 14, 10, 0),
        14,
        5,
        5,
    )
}

/// Nine gliders on a 100×100 grid that together form a breeder.
pub open spec fn example2_cells() -> Seq<CellState> {
    let c0 = all_dead(10000);
    let c1 = with_glider_down(c0, 100, 42, 0);
    let c2 = with_glider_down(c1, 100, 30, 18);
    let c3 = with_glider_down(c2, 100, 30, 22);
    let c4 = with_glider_down(c3, 100, 13, 42);
    let c5 = with_glider_left(c4, 100, 23, 57);
    let c6 = with_glider_left(c5, 100, 19, 62);
    let c7 = with_glider_up(c6, 100, 10, 68);
    let c8 = with_glider_up(c7, 100, 24, 87);
    with_glider_up(c8, 100, 28, 93)
}

/// One wick on a 100×100 grid, anchored at its centre.
pub open spec fn example3_cells() -> Seq<CellState> {
    stamped(all_dead(10000), 100, 50, 50, wick3_alive(), wick3_dying())
}

impl WorldState {
    /// The side of the grid.
    pub closed spec fn side(&self) -> nat {
        self.size as nat
    }

    /// The cells, row by row: the cell at column `x`, row `y` has index
    /// `y * side + x`.
    pub closed spec fn cells(&self) -> Seq<CellState> {
        self.world@
    }

    /// The world holds `side * side` cells, `side` is at least one, and the
    /// neighbour table is the one of that side.
    pub closed spec fn wf(&self) -> bool {
        &&& self.size >= 1
        &&& self.world@.len() == self.side() * self.side()
        &&& is_neighbour_table(self.neighbours@, self.side() as int)
    }

    /// The neighbour table of a grid of side `size`: for each cell, its
    /// in-bounds Moore neighbours in row-major order.
    pub fn precompute_neighbours(size: u16) -> (r: Vec<Vec<usize>>)
        ensures
            is_neighbour_table(r@, size as int),
    {
        let side = size as usize;
        proof {
            assert(side * side <= 65535 * 65535) by (nonlinear_arith)
                requires
                    side <= 65535,
            ;
        }
        let n = side * side;
        let mut table: Vec<Vec<usize>> = Vec::new();
        let mut i: usize = 0;
        while i < n
            invariant
                n == side * side,
                side == size as usize,
                n <= usize::MAX,
                i <= n,
                table.len() == i,
                forall|j: int|
                    0 <= j < i ==> as_ints(#[trigger] table@[j]@) == neighbour_list(side as int, j),
            decreases n - i,
        {
            let nbrs = neighbours_of(side, i);
            table.push(nbrs);
            i = i + 1;
        }
        table
    }

    fn blank(size: u16) -> (r: WorldState)
        requires
            size >= 1,
        ensures
            r.wf(),
            r.side() == size,
            r.cells() == all_dead(size as nat * size as nat),
    {
        let side = size as usize;
        proof {
            assert(side * side <= 65535 * 65535) by (nonlinear_arith)
                requires
                    side <= 65535,
            ;
        }
        let n = side * side;
        let mut world: Vec<CellState> = Vec::new();
        let mut i: usize = 0;
        while i < n
            invariant
                i <= n,
                world@ == all_dead(i as nat),
            decreases n - i,
        {
            world.push(CellState::Dead);
            i = i + 1;
            assert(world@ =~= all_dead(i as nat));
        }
        WorldState { size, world, neighbours: Self::precompute_neighbours(size) }
    }

    /// A world of side `size` with every cell `Dead`. A side of zero is
    /// refused.
    pub fn new(size: u16) -> (r: Result<WorldState, WorldError>)
        ensures
            match r {
                Ok(w) => size >= 1 && w.wf() && w.side() == size && w.cells() == all_dead(
                    size as nat * size as nat,
                ),
                Err(e) => size == 0 && e == WorldError::InvalidArgument,
            },
    {
        if size == 0 {
            Err(WorldError::InvalidArgument)
        } else {
            Ok(Self::blank(size))
        }
    }

    /// Advances the world by one generation: `Alive` cells turn `Dying`,
    /// `Dying` cells turn `Dead`, and a `Dead` cell turns `Alive` exactly when
    /// two of its neighbours were `Alive`.
    pub fn next(&mut self)
        requires
            old(self).wf(),
        ensures
            final(self).wf(),
            final(self).side() == old(self).side(),
            final(self).cells() == generation(old(self).cells(), old(self).side() as int),
            forall|i: int|
                0 <= i < old(self).cells().len() && old(self).cells()[i] == CellState::Dead ==> (
                #[trigger] final(self).cells()[i] == CellState::Alive <==> alive_neighbours(
                    old(self).cells(),
                    old(self).side() as int,
                    i,
                ) == 2),
    {
        let side = self.size as usize;
        advance(&mut self.world, side, &self.neighbours);
    }

    fn stamp_pattern(
        &mut self,
        x: usize,
        y: usize,
        alive: &[(usize, usize)],
        dying: &[(usize, usize)],
    ) -> (r: Result<(), WorldError>)
        requires
            old(self).wf(),
        ensures
            final(self).wf(),
            final(self).side() == old(self).side(),
            match r {
                Ok(_) => fits(old(self).side() as int, x as int, y as int, offsets(alive@)) && fits(
                    old(self).side() as int,
                    x as int,
                    y as int,
                    offsets(dying@),
                ) && final(self).cells() == stamped(
                    old(self).cells(),
                    old(self).side() as int,
                    x as int,
                    y as int,
                    offsets(alive@),
                    offsets(dying@),
                ),
                Err(e) => e == WorldError::IndexOutOfBounds && !(fits(
                    old(self).side() as int,
                    x as int,
                    y as int,
                    offsets(alive@),
                ) && fits(old(self).side() as int, x as int, y as int, offsets(dying@)))
                    && final(self).cells() == old(self).cells(),
            },
    {
        let side = self.size as usize;
        if stamp(&mut self.world, side, x, y, alive, dying) {
            Ok(())
        } else {
            Err(WorldError::IndexOutOfBounds)
        }
    }

    /// Stamps the period-3 oscillator with its footprint's top-left corner at
    /// column `x`, row `y`. The footprint must fit on the grid.
    pub fn spawn_osc3(&mut self, x: usize, y: usize) -> (r: Result<(), WorldError>)
        requires
            old(self).wf(),
        ensures
            final(self).wf(),
            final(self).side() == old(self).side(),
            r is Ok <==> x + 3 < old(self).side() && y + 3 < old(self).side(),
            r is Ok ==> final(self).cells() == stamped(
                old(self).cells(),
                old(self).side() as int,
                x as int,
                y as int,
                osc3_alive(),
                osc3_dying(),
            ),
            r is Err ==> r == Err::<(), WorldError>(WorldError::IndexOutOfBounds) && final(self).cells()
                == old(self).cells(),
    {
        let alive: [(usize, usize); 4] = [(1, 0), (0, 2), (3, 1), (2, 3)];
        let dying: [(usize, usize); 4] = [(1, 1), (1, 2), (2, 1), (2, 2)];
        assert(offsets(alive@) =~= osc3_alive());
        assert(offsets(dying@) =~= osc3_dying());
        self.stamp_pattern(x, y, &alive, &dying)
    }

    /// Stamps a glider heading down, anchored at column `x`, row `y`: a `Dying`
    /// pair over an `Alive` pair. The 2×2 footprint must fit on the grid.
    pub fn spawn_glider4_downward(&mut self, x: usize, y: usize) -> (r: Result<(), WorldError>)
        requires
            old(self).wf(),
        ensures
            final(self).wf(),
            final(self).side() == old(self).side(),
            r is Ok <==> x + 1 < old(self).side() && y + 1 < old(self).side(),
            r is Ok ==> final(self).cells() == stamped(
                old(self).cells(),
                old(self).side() as int,
                x as int,
                y as int,
                glider_down_alive(),
                glider_down_dying(),
            ),
            r is Err ==> r == Err::<(), WorldError>(WorldError::IndexOutOfBounds) && final(self).cells()
                == old(self).cells(),
    {
        let alive: [(usize, usize); 2] = [(0, 1), (1, 1)];
        let dying: [(usize, usize); 2] = [(0, 0), (1, 0)];
        assert(offsets(alive@) =~= glider_down_alive());
        assert(offsets(dying@) =~= glider_down_dying());
        self.stamp_pattern(x, y, &alive, &dying)
    }

    /// Stamps a glider heading up, anchored at column `x`, row `y`: an `Alive`
    /// pair over a `Dying` pair. The 2×2 footprint must fit on the grid.
    pub fn spawn_glider4_upward(&mut self, x: usize, y: usize) -> (r: Result<(), WorldError>)
        requires
            old(self).wf(),
        ensures
            final(self).wf(),
            final(self).side() == old(self).side(),
            r is Ok <==> x + 1 < old(self).side() && y + 1 < old(self).side(),
            r is Ok ==> final(self).cells() == stamped(
                old(self).cells(),
                old(self).side() as int,
                x as int,
                y as int,
                glider_up_alive(),
                glider_up_dying(),
            ),
            r is Err ==> r == Err::<(), WorldError>(WorldError::IndexOutOfBounds) && final(self).cells()
                == old(self).cells(),
    {
        let alive: [(usize, usize); 2] = [(0, 0), (1, 0)];
        let dying: [(usize, usize); 2] = [(0, 1), (1, 1)];
        assert(offsets(alive@) =~= glider_up_alive());
        assert(offsets(dying@) =~= glider_up_dying());
        self.stamp_pattern(x, y, &alive, &dying)
    }

    /// Stamps a glider heading left, anchored at column `x`, row `y`: an `Alive`
    /// column left of a `Dying` column. The 2×2 footprint must fit on the grid.
    pub fn spawn_glider4_leftward(&mut self, x: usize, y: usize) -> (r: Result<(), WorldError>)
        requires
            old(self).wf(),
        ensures
            final(self).wf(),
            final(self).side() == old(self).side(),
            r is Ok <==> x + 1 < old(self).side() && y + 1 < old(self).side(),
            r is Ok ==> final(self).cells() == stamped(
                old(self).cells(),
                old(self).side() as int,
                x as int,
                y as int,
                glider_left_alive(),
                glider_left_dying(),
            ),
            r is Err ==> r == Err::<(), WorldError>(WorldError::IndexOutOfBounds) && final(self).cells()
                == old(self).cells(),
    {
        let alive: [(usize, usize); 2] = [(0, 0), (0, 1)];
        let dying: [(usize, usize); 2] = [(1, 0), (1, 1)];
        assert(offsets(alive@) =~= glider_left_alive());
        assert(offsets(dying@) =~= glider_left_dying());
        self.stamp_pattern(x, y, &alive, &dying)
    }

    /// Stamps the wick seed, anchored at column `x`, row `y`: five `Alive` cells
    /// over one `Dying` cell. The 3×3 footprint must fit on the grid.
    pub fn spawn_wick3(&mut self, x: usize, y: usize) -> (r: Result<(), WorldError>)
        requires
            old(self).wf(),
        ensures
            final(self).wf(),
            final(self).side() == old(self).side(),
            r is Ok <==> x + 2 < old(self).side() && y + 2 < old(self).side(),
            r is Ok ==> final(self).cells() == stamped(
                old(self).cells(),
                old(self).side() as int,
                x as int,
                y as int,
                wick3_alive(),
                wick3_dying(),
            ),
            r is Err ==> r == Err::<(), WorldError>(WorldError::IndexOutOfBounds) && final(self).cells()
                == old(self).cells(),
    {
        let alive: [(usize, usize); 5] = [(0, 0), (1, 0), (2, 0), (0, 1), (2, 1)];
        let dying: [(usize, usize); 1] = [(1, 2)];
        assert(offsets(alive@) =~= wick3_alive());
        assert(offsets(dying@) =~= wick3_dying());
        assert(wick3_alive()[2] == (2int, 0int) && wick3_dying()[0] == (1int, 2int));
        self.stamp_pattern(x, y, &alive, &dying)
    }

    /// Sets to `Alive` the cells whose indices are the first `count` entries
    /// of `order`; every other cell keeps its state. On a world whose cells
    /// are all `Dead`, `count` distinct indices leave exactly `count` cells
    /// `Alive` and the rest `Dead`.
    pub fn set_alive(&mut self, order: &Vec<usize>, count: usize)
        requires
            old(self).wf(),
            count <= order.len(),
            forall|m: int| 0 <= m < count ==> (#[trigger] order[m] as int) < old(self).cells().len(),
        ensures
            final(self).wf(),
            final(self).side() == old(self).side(),
            final(self).cells() == with_alive(old(self).cells(), as_ints(order@.subrange(0, count as int))),
            as_ints(order@.subrange(0, count as int)).no_duplicates() && old(self).cells() == all_dead(
                old(self).cells().len(),
            ) ==> count_of(final(self).cells(), CellState::Alive) == count && count_of(
                final(self).cells(),
                CellState::Dead,
            ) == old(self).cells().len() - count,
    {
        let ghost c0 = self.world@;
        let ghost n = c0.len();
        let ghost fresh = as_ints(order@.subrange(0, count as int)).no_duplicates() && c0 == all_dead(n);
        proof {
            if c0 == all_dead(n) {
                lemma_count_uniform(c0, CellState::Dead, CellState::Alive);
            }
        }
        let mut t: usize = 0;
        while t < count
            invariant
                self.wf(),
                self.size == old(self).size,
                self.world@.len() == n,
                count <= order.len(),
                forall|m: int| 0 <= m < count ==> (#[trigger] order[m] as int) < n,
                t <= count,
                self.world@ == with_alive(c0, as_ints(order@.subrange(0, t as int))),
                fresh == (as_ints(order@.subrange(0, count as int)).no_duplicates() && c0 == all_dead(n)),
                fresh ==> count_of(self.world@, CellState::Alive) == t && count_of(
                    self.world@,
                    CellState::Dead,
                ) == n - t,
            decreases count - t,
        {
            let idx = order[t];
            let ghost before = self.world@;
            let ghost pre = as_ints(order@.subrange(0, t as int));
            proof {
                assert(as_ints(order@.subrange(0, t as int + 1)) =~= pre.push(idx as int));
                if fresh {
                    let full = as_ints(order@.subrange(0, count as int));
                    assert(!pre.contains(idx as int)) by {
                        if pre.contains(idx as int) {
                            let m = choose|m: int| 0 <= m < pre.len() && pre[m] == idx as int;
                            assert(full[m] == full[t as int]);
                        }
                    }
                    assert(before[idx as int] == CellState::Dead);
                    lemma_count_update(before, idx as int, CellState::Alive, CellState::Alive);
                    lemma_count_update(before, idx as int, CellState::Alive, CellState::Dead);
                }
            }
            self.world.set(idx, CellState::Alive);
            proof {
                let post = pre.push(idx as int);
                assert forall|j: int| 0 <= j < n implies #[trigger] self.world@[j] == with_alive(c0, post)[j] by {
                    if pre.contains(j) {
                        let m = choose|m: int| 0 <= m < pre.len() && pre[m] == j;
                        assert(post[m] == j);
                    }
                    if j == idx as int {
                        assert(post[t as int] == j);
                    }
                    if post.contains(j) && j != idx as int {
                        let m = choose|m: int| 0 <= m < post.len() && post[m] == j;
                        assert(pre[m] == j);
                    }
                }
                assert(self.world@ =~= with_alive(c0, post));
            }
            t = t + 1;
        }
    }

    /// Brings a fraction `numerator / denominator` of the cells to life.
    ///
    /// A rate of one sets every cell `Alive`. Any other rate sets to `Alive`
    /// exactly `floor(numerator * n / denominator)` distinct cells of the `n`,
    /// drawn uniformly at random; the other cells keep their state. A zero
    /// denominator, or a rate above one, is refused.
    pub fn randomize(&mut self, numerator: u32, denominator: u32) -> (r: Result<(), WorldError>)
        requires
            old(self).wf(),
        ensures
            final(self).wf(),
            final(self).side() == old(self).side(),
            r is Err <==> denominator == 0 || numerator > denominator,
            r is Err ==> r == Err::<(), WorldError>(WorldError::InvalidArgument) && final(self).cells()
                == old(self).cells(),
            r is Ok && numerator == denominator ==> final(self).cells() == all_alive(
                old(self).cells().len(),
            ),
            r is Ok && numerator == denominator ==> count_of(final(self).cells(), CellState::Alive)
                == old(self).cells().len() && count_of(final(self).cells(), CellState::Dying) == 0
                && count_of(final(self).cells(), CellState::Dead) == 0,
            r is Ok && numerator == 0 ==> final(self).cells() == old(self).cells(),
            r is Ok && numerator == 0 && old(self).cells() == all_dead(old(self).cells().len())
                ==> count_of(final(self).cells(), CellState::Alive) == 0,
            r is Ok ==> exists|chosen: Seq<int>|
                {
                    &&& chosen.no_duplicates()
                    &&& chosen.len() == alive_target(
                        numerator as int,
                        denominator as int,
                        old(self).cells().len() as int,
                    )
                    &&& forall|m: int|
                        0 <= m < chosen.len() ==> 0 <= #[trigger] chosen[m] < old(self).cells().len()
                    &&& final(self).cells() == with_alive(old(self).cells(), chosen)
                },
            r is Ok && old(self).cells() == all_dead(old(self).cells().len()) ==> count_of(
                final(self).cells(),
                CellState::Alive,
            ) == alive_target(numerator as int, denominator as int, old(self).cells().len() as int)
                && count_of(final(self).cells(), CellState::Dead) == old(self).cells().len()
                - alive_target(numerator as int, denominator as int, old(self).cells().len() as int),
    {
        if denominator == 0 || numerator > denominator {
            return Err(WorldError::InvalidArgument);
        }
        let n = self.world.len();
        let ghost c0 = self.world@;
        proof {
            assert(n <= 65535 * 65535) by (nonlinear_arith)
                requires
                    n == self.size as int * self.size as int,
                    self.size <= 65535,
            ;
        }
        let mut order: Vec<usize> = Vec::new();
        let mut i: usize = 0;
        while i < n
            invariant
                i <= n,
                order@ == Seq::new(i as nat, |m: int| m as usize),
            decreases n - i,
        {
            order.push(i);
            i = i + 1;
            assert(order@ =~= Seq::new(i as nat, |m: int| m as usize));
        }
        let ghost ordered = order@;
        if numerator == denominator {
            let mut t: usize = 0;
            while t < n
                invariant
                    t <= n,
                    self.wf(),
                    self.size == old(self).size,
                    self.world@.len() == n,
                    forall|j: int| 0 <= j < t ==> self.world@[j] == CellState::Alive,
                decreases n - t,
            {
                self.world.set(t, CellState::Alive);
                t = t + 1;
            }
            assert(self.world@ =~= all_alive(n as nat));
            let ghost chosen = as_ints(ordered);
            proof {
                assert(alive_target(numerator as int, denominator as int, n as int) == n as int) by (nonlinear_arith)
                    requires
                        numerator == denominator,
                        denominator > 0,
                ;
                assert forall|j: int| 0 <= j < n implies chosen.contains(j) by {
                    assert(chosen[j] == j);
                }
                assert(forall|m: int| 0 <= m < chosen.len() ==> #[trigger] chosen[m] == m);
                assert(chosen.no_duplicates());
                assert(self.world@ =~= with_alive(c0, chosen));
                lemma_count_uniform(self.world@, CellState::Alive, CellState::Dead);
                lemma_count_uniform(self.world@, CellState::Alive, CellState::Dying);
            }
            return Ok(());
        }
        shuffle(&mut order);
        proof {
            ordered.to_multiset_ensures();
            order@.to_multiset_ensures();
            assert forall|m: int| 0 <= m < order.len() implies (#[trigger] order[m] as int) < n by {
                assert(order@.contains(order[m]));
                assert(order@.to_multiset().count(order[m]) > 0);
                assert(ordered.to_multiset().count(order[m]) > 0);
                assert(ordered.contains(order[m]));
            }
            ordered.lemma_multiset_has_no_duplicates();
            order@.lemma_multiset_has_no_duplicates_conv();
        }
        proof {
            assert((numerator as int) * (n as int) <= 4294967295 * (65535 * 65535)) by (nonlinear_arith)
                requires
                    numerator <= 4294967295,
                    n <= 65535 * 65535,
            ;
            assert(alive_target(numerator as int, denominator as int, n as int) <= n) by {
                assert((numerator as int) * (n as int) <= (n as int) * (denominator as int)) by (nonlinear_arith)
                    requires
                        numerator <= denominator,
                        n >= 0,
                ;
                vstd::arithmetic::div_mod::lemma_div_is_ordered(
                    (numerator as int) * (n as int),
                    (n as int) * (denominator as int),
                    denominator as int,
                );
                vstd::arithmetic::div_mod::lemma_div_by_multiple(n as int, denominator as int);
            }
        }
        let k = ((numerator as u64) * (n as u64) / (denominator as u64)) as usize;
        self.set_alive(&order, k);
        proof {
            let chosen = as_ints(order@.subrange(0, k as int));
            assert(chosen.no_duplicates()) by {
                assert forall|a: int, b: int| 0 <= a < b < chosen.len() implies chosen[a] != chosen[b] by {
                    assert(order@[a] != order@[b]);
                }
            }
            assert(forall|m: int|
                0 <= m < chosen.len() ==> 0 <= #[trigger] chosen[m] < n && chosen[m] == order[m] as int);
            if numerator == 0 {
                assert(alive_target(numerator as int, denominator as int, n as int) == 0) by (nonlinear_arith)
                    requires
                        numerator == 0,
                        denominator > 0,
                ;
                assert(chosen =~= Seq::<int>::empty());
                assert(self.world@ =~= c0);
                if c0 == all_dead(n as nat) {
                    lemma_count_uniform(c0, CellState::Dead, CellState::Alive);
                }
            }
        }
        Ok(())
    }

    /// A 14×14 world with five period-3 oscillators.
    pub fn example1() -> (r: WorldState)
        ensures
            r.wf(),
            r.side() == 14,
            r.cells() == example1_cells(),
    {
        let mut ws = Self::blank(14);
        let _ = ws.spawn_osc3(0, 0);
        let _ = ws.spawn_osc3(10, 10);
        let _ = ws.spawn_osc3(0, 10);
        let _ = ws.spawn_osc3(10, 0);
        let _ = ws.spawn_osc3(5, 5);
        ws
    }

    /// A 100×100 world with nine gliders that form a breeder.
    pub fn example2() -> (r: WorldState)
        ensures
            r.wf(),
            r.side() == 100,
            r.cells() == example2_cells(),
    {
        let mut ws = Self::blank(100);
        let _ = ws.spawn_glider4_downward(42, 0);
        let _ = ws.spawn_glider4_downward(30, 18);
        let _ = ws.spawn_glider4_downward(30, 22);
        let _ = ws.spawn_glider4_downward(13, 42);
        let _ = ws.spawn_glider4_leftward(23, 57);
        let _ = ws.spawn_glider4_leftward(19, 62);
        let _ = ws.spawn_glider4_upward(10, 68);
        let _ = ws.spawn_glider4_upward(24, 87);
        let _ = ws.spawn_glider4_upward(28, 93);
        ws
    }

    /// A 100×100 world with one wick.
    pub fn example3() -> (r: WorldState)
        ensures
            r.wf(),
            r.side() == 100,
            r.cells() == example3_cells(),
    {
        let mut ws = Self::blank(100);
        let _ = ws.spawn_wick3(50, 50);
        ws
    }

    /// The render geometry of the world: six vertices (two triangles) for
    /// each `Alive` or `Dying` cell, in scan order, and none for a `Dead`
    /// cell.
    pub fn as_vertices(&self) -> (r: Vec<Vertex>)
        requires
            self.wf(),
        ensures
            r@ == project(self.cells(), self.side() as int),
            r@.len() == 6 * (count_of(self.cells(), CellState::Alive) + count_of(
                self.cells(),
                CellState::Dying,
            )),
            self.cells() == all_dead(self.cells().len()) ==> r@.len() == 0,
    {
        proof {
            assert(self.world@.len() <= 65535 * 65535) by (nonlinear_arith)
                requires
                    self.world@.len() == self.size as int * self.size as int,
                    self.size <= 65535,
            ;
            lemma_project_len(self.world@, self.size as int);
            if self.world@ == all_dead(self.world@.len()) {
                lemma_count_uniform(self.world@, CellState::Dead, CellState::Alive);
                lemma_count_uniform(self.world@, CellState::Dead, CellState::Dying);
            }
        }
        project_cells(self.size as usize, &self.world)
    }

    /// The world as text: `O` for an `Alive` cell, `X` for a `Dying` one,
    /// `.` for a `Dead` one, one row per line.
    pub fn to_text(&self) -> (r: String)
        requires
            self.wf(),
        ensures
            r@ == render(self.cells(), self.side() as int),
    {
        render_cells(self.size as usize, &self.world)
    }

    /// Advances the world by one generation, reading neighbours from
    /// `table`, exactly as `next` does. A table built for another side is
    /// refused and the world is left as it was.
    pub fn step(&mut self, table: &NeighbourTable) -> (r: Result<(), WorldError>)
        requires
            old(self).wf(),
            table.wf(),
        ensures
            final(self).wf(),
            final(self).side() == old(self).side(),
            r is Err <==> table.side() != old(self).side(),
            r is Err ==> r == Err::<(), WorldError>(WorldError::SizeMismatch) && final(self).cells()
                == old(self).cells(),
            r is Ok ==> final(self).cells() == generation(old(self).cells(), old(self).side() as int),
    {
        if table.size != self.size {
            return Err(WorldError::SizeMismatch);
        }
        let side = self.size as usize;
        advance(&mut self.world, side, &table.entries);
        Ok(())
    }

    /// The side of the grid.
    pub fn size(&self) -> (r: u16)
        ensures
            r == self.side(),
    {
        self.size
    }

    /// The state of the cell of row-major index `i`.
    pub fn cell(&self, i: usize) -> (r: CellState)
        requires
            i < self.cells().len(),
        ensures
            r == self.cells()[i as int],
    {
        self.world[i]
    }

    /// The neighbours of the cell of row-major index `i`, in row-major order.
    pub fn neighbours(&self, i: usize) -> (r: &Vec<usize>)
        requires
            self.wf(),
            i < self.cells().len(),
        ensures
            as_ints(r@) == neighbour_list(self.side() as int, i as int),
    {
        &self.neighbours[i]
    }
}

} // verus!
