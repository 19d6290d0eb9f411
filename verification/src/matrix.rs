//! The grid of cells and the search that runs on it.
use vstd::prelude::*;
use crate::model::at;
use crate::model::count;
use crate::model::deactivated;
use crate::model::expand;
use crate::model::inside;
use crate::model::lemma_adjacent;
use crate::model::lemma_count_put;
use crate::model::lemma_put_keeps_inside;
use crate::model::lemma_put_wf;
use crate::model::lemma_filter_push;
use crate::model::is_not;
use crate::model::neighbour_coords;
use crate::model::put;
use crate::model::sweep;
use crate::model::trace_path;
use crate::model::without;
use crate::model::GridView;
use crate::node::Node;
use crate::progress::lemma_step;
use crate::node::State;

verus! {

/// What one generation of the search reports.
#[derive(Clone, Copy, PartialEq, Eq, Structural, Debug)]
pub enum Solve {
    Continue,
    Stop,
}

/// A rectangle of cells and the frontier of the search on it.
#[derive(Clone)]
pub struct Matrix {
    inner: Vec<Vec<Node>>,
    active_cells: Vec<(usize, usize)>,
}

impl View for Matrix {
    type V = GridView;

    closed spec fn view(&self) -> GridView {
        GridView {
            cells: Seq::new(self.inner.len() as nat, |i: int| self.inner[i]@),
            frontier: self.active_cells@,
        }
    }
}

impl Matrix {
    /// The invariant of a matrix: see [`GridView::wf`].
    pub open spec fn wf(&self) -> bool {
        self@.wf()
    }

    /// What the invariant says of the rows as they are stored.
    proof fn lemma_rows(&self)
        requires
            self.wf(),
        ensures
            self.inner.len() == self@.cells.len(),
            self.inner.len() >= 1,
            self@.cells[0].len() <= usize::MAX,
            forall|i: int|
                0 <= i < self.inner.len() ==> {
                    &&& (#[trigger] self.inner[i]).len() == self@.cells[0].len()
                    &&& self@.cells[i] == self.inner[i]@
                },
    {
        assert(self@.cells[0] == self.inner[0]@);
        assert forall|i: int| 0 <= i < self.inner.len() implies {
            &&& (#[trigger] self.inner[i]).len() == self@.cells[0].len()
            &&& self@.cells[i] == self.inner[i]@
        } by {
            assert(self@.cells[i] == self.inner[i]@);
        }
    }

    /// A grid of `height` rows and `width` columns, every cell empty, with an
    /// empty frontier.
    pub fn new(height: usize, width: usize) -> (matrix: Matrix)
        requires
            height >= 1,
            width >= 1,
        ensures
            matrix.wf(),
            matrix@ == GridView::fresh(height as nat, width as nat),
    {
        let mut matrix: Vec<Vec<Node>> = Vec::new();
        for i in 0..height
            invariant
                matrix.len() == i,
                forall|a: int, b: int|
                    0 <= a < i && 0 <= b < width ==> #[trigger] matrix[a][b] == Node::fresh(
                        a as usize,
                        b as usize,
                    ),
                forall|a: int| 0 <= a < i ==> (#[trigger] matrix[a]).len() == width,
        {
            let mut row: Vec<Node> = Vec::new();
            for j in 0..width
                invariant
                    row.len() == j,
                    forall|b: int| 0 <= b < j ==> #[trigger] row[b] == Node::fresh(i, b as usize),
            {
                row.push(Node::new(i, j));
            }
            matrix.push(row);
        }
        let made = Matrix { inner: matrix, active_cells: Vec::new() };
        proof {
            let fresh = GridView::fresh(height as nat, width as nat);
            assert(made@.cells.len() == fresh.cells.len());
            assert forall|a: int| 0 <= a < height implies made@.cells[a] == fresh.cells[a] by {
                assert(made@.cells[a] =~= fresh.cells[a]);
            }
            assert(made@.cells =~= fresh.cells);
            assert(made@.frontier =~= fresh.frontier);
        }
        made
    }

    /// The rows of the grid, first row first.
    pub fn into_rows(self) -> (rows: Vec<Vec<Node>>)
        ensures
            rows.len() == self@.cells.len(),
            forall|i: int| 0 <= i < rows.len() ==> (#[trigger] rows[i])@ == self@.cells[i],
    {
        self.inner
    }

    /// The frontier: the coordinates that the next generation expands, in the
    /// order in which it expands them.
    pub fn frontier(&self) -> (frontier: &Vec<(usize, usize)>)
        ensures
            frontier@ == self@.frontier,
    {
        &self.active_cells
    }

    /// The cell at `(x, y)`.
    pub fn node(&self, x: usize, y: usize) -> (node: Node)
        requires
            self.wf(),
            inside(self@.cells, (x, y)),
        ensures
            node == at(self@.cells, (x, y)),
    {
        self.inner[x][y]
    }

    /// The cells next to `(i, j)` that lie in the grid: the one above, the
    /// one below, the one to the left and the one to the right, in this
    /// order. They are at most four, and no cell comes twice.
    pub fn neighbours(&self, i: usize, j: usize) -> (nb: Vec<Node>)
        requires
            self.wf(),
        ensures
            nb@ == neighbour_coords(self@.cells, (i, j)).map_values(
                |c: (usize, usize)| at(self@.cells, c),
            ),
            nb.len() <= 4,
            forall|k: int| 0 <= k < nb.len() ==> inside(self@.cells, (#[trigger] nb[k].x, nb[k].y)),
            forall|k: int, l: int|
                0 <= k < l < nb.len() ==> (nb[k].x, nb[k].y) != (nb[l].x, nb[l].y),
    {
        let mut nb: Vec<Node> = Vec::new();
        let height = self.height();
        let width = self.width();
        let ghost cells = self@.cells;
        let ghost pick = |c: (usize, usize)| at(cells, c);
        proof {
            self.lemma_rows();
        }
        let ghost mut coords: Seq<(usize, usize)> = Seq::empty();
        assert(nb@ =~= coords.map_values(pick));
        if 1 <= i && i <= height && j < width {
            nb.push(self.inner[i - 1][j]);
            proof {
                coords = coords.push(((i - 1) as usize, j));
                assert(nb@ =~= coords.map_values(pick));
            }
        }
        if i < height && i + 1 < height && j < width {
            nb.push(self.inner[i + 1][j]);
            proof {
                coords = coords.push(((i + 1) as usize, j));
                assert(nb@ =~= coords.map_values(pick));
            }
        }
        if i < height && 1 <= j && j <= width {
            nb.push(self.inner[i][j - 1]);
            proof {
                coords = coords.push((i, (j - 1) as usize));
                assert(nb@ =~= coords.map_values(pick));
            }
        }
        if i < height && j < width && j + 1 < width {
            nb.push(self.inner[i][j + 1]);
            proof {
                coords = coords.push((i, (j + 1) as usize));
                assert(nb@ =~= coords.map_values(pick));
            }
        }
        proof {
            assert(coords =~= neighbour_coords(cells, (i, j)));
            lemma_adjacent(height as int, width as int, (i, j));
            assert forall|k: int| 0 <= k < nb.len() implies (#[trigger] nb[k].x, nb[k].y)
                == coords[k] by {
                let d = coords[k];
                assert(nb[k] == cells[d.0 as int][d.1 as int]);
            }
        }
        nb
    }

    /// The number of columns.
    pub fn width(&self) -> (width: usize)
        requires
            self.wf(),
        ensures
            width == self@.width(),
            width >= 1,
    {
        self.inner[0].len()
    }

    /// The number of rows.
    pub fn height(&self) -> (height: usize)
        requires
            self.wf(),
        ensures
            height == self@.height(),
            height >= 1,
    {
        self.inner.len()
    }

    /// Advances the search by one generation.
    ///
    /// Every frontier cell, in order, leaves the frontier and has its
    /// neighbours looked at. An empty neighbour is visited from the frontier
    /// cell and joins the next frontier. A neighbour that is the target ends
    /// the search at once: the path is marked from the frontier cell back to
    /// the start, the rest of the frontier is not expanded and the frontier
    /// is left as it was. Walls, the start and cells already visited are
    /// passed over. If the target did not turn up, the cells discovered in
    /// this generation become the frontier, and the search goes on as long
    /// as there are any.
    ///
    /// A frontier cell that is itself the target means that start and target
    /// are one cell. The search stops there at once and marks nothing.
    pub fn step(&mut self) -> (outcome: Solve)
        requires
            old(self).wf(),
        ensures
            final(self).wf(),
            final(self)@ == old(self)@.step(),
            outcome == old(self)@.outcome(),
    {
        let mut active: Vec<(usize, usize)> = Vec::new();
        let ghost total = self@.sweep();
        let ghost frontier = self@.frontier;
        let mut i: usize = 0;
        while i < self.active_cells.len()
            invariant
                self.wf(),
                self@.frontier == frontier,
                frontier == old(self)@.frontier,
                i <= frontier.len(),
                forall|m: int| 0 <= m < active.len() ==> inside(self@.cells, #[trigger] active[m]),
                sweep(self@.cells, frontier, i as int, active@) == total,
                total == old(self)@.sweep(),
            decreases frontier.len() - i,
        {
            let (x, y) = self.active_cells[i];
            assert((x, y) == frontier[i as int]);
            assert(inside(self@.cells, (x, y)));
            if self.inner[x][y].is_target() {
                return Solve::Stop;
            }
            let ghost before = self@.cells;
            self.inner[x][y].active = false;
            proof {
                let node = Node { active: false, ..at(before, (x, y)) };
                assert(self@.cells =~= deactivated(before, (x, y)));
                lemma_put_wf(before, (x, y), node);
                lemma_put_keeps_inside(before, (x, y), node, frontier);
                lemma_put_keeps_inside(before, (x, y), node, active@);
            }
            let neighbours = self.neighbours(x, y);
            let ghost around = neighbour_coords(self@.cells, (x, y));
            proof {
                self.lemma_rows();
                lemma_adjacent(self@.cells.len() as int, self@.cells[0].len() as int, (x, y));
                assert(around == neighbour_coords(before, (x, y)));
            }
            let mut k: usize = 0;
            while k < neighbours.len()
                invariant
                    self.wf(),
                    self@.frontier == frontier,
                    frontier == old(self)@.frontier,
                    i < frontier.len(),
                    (x, y) == frontier[i as int],
                    inside(self@.cells, (x, y)),
                    forall|m: int|
                        0 <= m < active.len() ==> inside(self@.cells, #[trigger] active[m]),
                    around == neighbour_coords(self@.cells, (x, y)),
                    neighbours.len() == around.len(),
                    k <= around.len(),
                    forall|m: int| 0 <= m < around.len() ==> inside(self@.cells, #[trigger] around[m]),
                    forall|m: int, n: int| 0 <= m < n < around.len() ==> around[m] != around[n],
                    forall|m: int|
                        k <= m < around.len() ==> #[trigger] neighbours[m] == at(
                            self@.cells,
                            around[m],
                        ),
                    ({
                        let e = expand(self@.cells, active@, (x, y), around, k as int);
                        if e.finder is Some {
                            e == total
                        } else {
                            sweep(e.cells, frontier, i + 1, e.next) == total
                        }
                    }),
                    total == old(self)@.sweep(),
                decreases around.len() - k,
            {
                let neighbour = neighbours[k];
                let ghost here = self@.cells;
                let ghost d = around[k as int];
                assert(neighbour == at(here, d));
                assert(neighbour.x == d.0 && neighbour.y == d.1) by {
                    assert(inside(here, d));
                    assert(here[d.0 as int][d.1 as int].x == d.0);
                }
                if neighbour.is_target() {
                    self.mark_path(x, y);
                    return Solve::Stop;
                } else if neighbour.is_empty() {
                    active.push((neighbour.x, neighbour.y));
                    self.inner[neighbour.x][neighbour.y].visit(x, y);
                    proof {
                        let visited = at(here, d).visited_from(x, y);
                        assert(self@.cells =~= put(here, d, visited));
                        lemma_put_wf(here, d, visited);
                        lemma_put_keeps_inside(here, d, visited, frontier);
                        lemma_put_keeps_inside(here, d, visited, active@.drop_last());
                        lemma_put_keeps_inside(here, d, visited, around);
                        assert forall|m: int| 0 <= m < active.len() implies inside(
                            self@.cells,
                            #[trigger] active[m],
                        ) by {
                            if m < active.len() - 1 {
                                assert(active[m] == active@.drop_last()[m]);
                            }
                        }
                        assert forall|m: int| k < m < around.len() implies #[trigger] neighbours[m]
                            == at(self@.cells, around[m]) by {
                            assert(around[m] != d);
                            assert(inside(here, around[m]));
                        }
                    }
                }
                k += 1;
            }
            i += 1;
        }
        self.active_cells = active;
        return if self.active_cells.len() > 0 {
            Solve::Continue
        } else {
            Solve::Stop
        };
    }

    /// Puts `(x, y)` at the end of the frontier and marks the cell active.
    pub fn set_active(&mut self, x: usize, y: usize)
        requires
            old(self).wf(),
            inside(old(self)@.cells, (x, y)),
        ensures
            final(self).wf(),
            final(self)@ == old(self)@.activate((x, y)),
    {
        let ghost before = self@.cells;
        self.active_cells.push((x, y));
        self.inner[x][y].active = true;
        proof {
            let node = Node { active: true, ..at(before, (x, y)) };
            assert(self@.cells =~= put(before, (x, y), node));
            assert(self@.frontier == old(self)@.frontier.push((x, y)));
            lemma_put_wf(before, (x, y), node);
            lemma_put_keeps_inside(before, (x, y), node, self@.frontier);
        }
    }

    /// Takes every entry for `(x, y)` out of the frontier and marks the cell
    /// inactive. The other entries keep their order. Nothing else happens if
    /// the frontier held no such entry.
    pub fn set_inactive(&mut self, x: usize, y: usize)
        requires
            old(self).wf(),
            inside(old(self)@.cells, (x, y)),
        ensures
            final(self).wf(),
            final(self)@ == old(self)@.deactivate((x, y)),
    {
        let ghost before = self@;
        let mut kept: Vec<(usize, usize)> = Vec::new();
        let mut k: usize = 0;
        proof {
            lemma_filter_push(Seq::empty(), (x, y), is_not((x, y)));
            assert(before.frontier.take(0) =~= Seq::empty());
        }
        while k < self.active_cells.len()
            invariant
                self@ == before,
                k <= before.frontier.len(),
                kept@ == without(before.frontier.take(k as int), (x, y)),
                forall|m: int| 0 <= m < kept.len() ==> inside(before.cells, #[trigger] kept[m]),
                before.wf(),
            decreases before.frontier.len() - k,
        {
            let (a, b) = self.active_cells[k];
            proof {
                lemma_filter_push(before.frontier.take(k as int), (a, b), is_not((x, y)));
                assert(before.frontier.take(k + 1) =~= before.frontier.take(k as int).push((a, b)));
            }
            if a != x || b != y {
                kept.push((a, b));
            }
            k += 1;
        }
        proof {
            assert(before.frontier.take(k as int) =~= before.frontier);
        }
        self.active_cells = kept;
        self.inner[x][y].active = false;
        proof {
            let node = Node { active: false, ..at(before.cells, (x, y)) };
            assert(self@.cells =~= deactivated(before.cells, (x, y)));
            lemma_put_wf(before.cells, (x, y), node);
            lemma_put_keeps_inside(before.cells, (x, y), node, self@.frontier);
        }
    }

    /// Forgets where the cell at `(x, y)` was discovered from.
    pub fn clear_parent(&mut self, x: usize, y: usize)
        requires
            old(self).wf(),
            inside(old(self)@.cells, (x, y)),
        ensures
            final(self).wf(),
            final(self)@ == old(self)@.with_cell(
                (x, y),
                Node { parent_coords: None, ..at(old(self)@.cells, (x, y)) },
            ),
    {
        let ghost before = self@.cells;
        self.inner[x][y].parent_coords = None;
        proof {
            let node = Node { parent_coords: None, ..at(before, (x, y)) };
            assert(self@.cells =~= put(before, (x, y), node));
            assert(self@.frontier == old(self)@.frontier);
            lemma_put_wf(before, (x, y), node);
            lemma_put_keeps_inside(before, (x, y), node, self@.frontier);
        }
    }

    /// Puts the cell at `(x, y)` in `state`. Nothing else about the cell
    /// changes, and the frontier stays as it is.
    pub fn set_state(&mut self, x: usize, y: usize, state: State)
        requires
            old(self).wf(),
            inside(old(self)@.cells, (x, y)),
        ensures
            final(self).wf(),
            final(self)@ == old(self)@.with_cell(
                (x, y),
                Node { state: state, ..at(old(self)@.cells, (x, y)) },
            ),
    {
        let ghost before = self@.cells;
        self.inner[x][y].state = state;
        proof {
            let node = Node { state: state, ..at(before, (x, y)) };
            assert(self@.cells =~= put(before, (x, y), node));
            assert(self@.frontier == old(self)@.frontier);
            lemma_put_wf(before, (x, y), node);
            lemma_put_keeps_inside(before, (x, y), node, self@.frontier);
        }
    }

    /// The state of the cell at `(x, y)`.
    pub fn state(&self, x: usize, y: usize) -> (state: State)
        requires
            self.wf(),
            inside(self@.cells, (x, y)),
        ensures
            state == at(self@.cells, (x, y)).state,
    {
        self.inner[x][y].state
    }

    /// Marks the path from `(x, y)` back to the start: see [`trace_path`].
    fn mark_path(&mut self, x: usize, y: usize)
        requires
            old(self).wf(),
            inside(old(self)@.cells, (x, y)),
        ensures
            final(self).wf(),
            final(self)@.cells == trace_path(old(self)@.cells, (x, y)),
            final(self)@.frontier == old(self)@.frontier,
    {
        let ghost from = (x, y);
        let mut x = x;
        let mut y = y;
        loop
            invariant_except_break
                trace_path(self@.cells, (x, y)) == trace_path(old(self)@.cells, from),
                inside(self@.cells, (x, y)),
            invariant
                self.wf(),
                self@.frontier == old(self)@.frontier,
            ensures
                self@.cells == trace_path(old(self)@.cells, from),
            decreases count(self@.cells, State::Visited),
        {
            let ghost here = self@.cells;
            let found = self.inner[x][y].mark_path();
            proof {
                let marked = at(here, (x, y)).marked();
                assert(self@.cells =~= put(here, (x, y), marked));
                lemma_put_wf(here, (x, y), marked);
                lemma_put_keeps_inside(here, (x, y), marked, self@.frontier);
                lemma_count_put(here, (x, y), marked, State::Visited);
                if at(here, (x, y)).state != State::Visited {
                    assert(here[x as int].update(y as int, marked) =~= here[x as int]);
                    assert(put(here, (x, y), marked) =~= here);
                }
            }
            match found {
                Some((nx, ny)) => {
                    assert(inside(here, (nx, ny))) by {
                        assert(here[x as int][y as int].parent_coords == Some((nx, ny)));
                    }
                    x = nx;
                    y = ny;
                },
                None => break ,
            }
        }
    }
}

/// Runs the search to its end: generation after generation, until one of
/// them reports `Stop`.
pub fn solve(matrix: &mut Matrix)
    requires
        old(matrix).wf(),
    ensures
        final(matrix).wf(),
        final(matrix)@ == old(matrix)@.run(),
{
    loop
        invariant_except_break
            matrix@.run() == old(matrix)@.run(),
        invariant
            matrix.wf(),
        ensures
            matrix@ == old(matrix)@.run(),
        decreases count(matrix@.cells, State::Empty),
    {
        proof {
            lemma_step(matrix@);
        }
        match matrix.step() {
            Solve::Continue => continue ,
            Solve::Stop => break ,
        }
    }
}

} // verus!
