//! The mathematical model of the grid and of the search on it.
//!
//! A grid is a rectangle of cells, given as a sequence of rows, together with
//! the frontier: the coordinates that the next generation of the search
//! expands, in the order in which it expands them. Everything the executable
//! code does to a grid is stated here as a function on this model.
use vstd::prelude::*;
use crate::matrix::Solve;
use crate::node::Node;
use crate::node::State;
use crate::progress::lemma_step;

verus! {

/// What a [`crate::matrix::Matrix`] stands for.
pub struct GridView {
    pub cells: Seq<Seq<Node>>,
    pub frontier: Seq<(usize, usize)>,
}

/// `c` names a cell of `cells`.
pub open spec fn inside(cells: Seq<Seq<Node>>, c: (usize, usize)) -> bool {
    c.0 < cells.len() && c.1 < cells[c.0 as int].len()
}

/// The cell at `c`.
pub open spec fn at(cells: Seq<Seq<Node>>, c: (usize, usize)) -> Node {
    cells[c.0 as int][c.1 as int]
}

/// `cells` with the cell at `c` replaced by `node`.
pub open spec fn put(cells: Seq<Seq<Node>>, c: (usize, usize), node: Node) -> Seq<Seq<Node>> {
    cells.update(c.0 as int, cells[c.0 as int].update(c.1 as int, node))
}

/// The cells form a rectangle with at least one row and one column, and no
/// more of either than can be counted. Every cell knows its own coordinates,
/// and every recorded parent is a cell of the grid.
pub open spec fn cells_wf(cells: Seq<Seq<Node>>) -> bool {
    &&& 1 <= cells.len() <= usize::MAX
    &&& 1 <= cells[0].len() <= usize::MAX
    &&& forall|i: int| 0 <= i < cells.len() ==> (#[trigger] cells[i]).len() == cells[0].len()
    &&& forall|i: int, j: int|
        0 <= i < cells.len() && 0 <= j < cells[0].len() ==> {
            let node = #[trigger] cells[i][j];
            &&& node.x == i
            &&& node.y == j
            &&& node.parent_coords matches Some(p) ==> inside(cells, p)
        }
}

/// The positions next to `c` that lie in a grid of `height` rows and `width`
/// columns: the one above, the one below, the one to the left and the one to
/// the right, in this order.
pub open spec fn adjacent(height: int, width: int, c: (usize, usize)) -> Seq<(usize, usize)> {
    let up: Seq<(usize, usize)> = if 1 <= c.0 <= height && c.1 < width {
        seq![((c.0 - 1) as usize, c.1)]
    } else {
        seq![]
    };
    let down: Seq<(usize, usize)> = if c.0 + 1 < height && c.1 < width {
        seq![((c.0 + 1) as usize, c.1)]
    } else {
        seq![]
    };
    let left: Seq<(usize, usize)> = if c.0 < height && 1 <= c.1 <= width {
        seq![(c.0, (c.1 - 1) as usize)]
    } else {
        seq![]
    };
    let right: Seq<(usize, usize)> = if c.0 < height && c.1 + 1 < width {
        seq![(c.0, (c.1 + 1) as usize)]
    } else {
        seq![]
    };
    up + down + left + right
}

/// The coordinates of the neighbours of `c` in `cells`.
pub open spec fn neighbour_coords(cells: Seq<Seq<Node>>, c: (usize, usize)) -> Seq<(usize, usize)> {
    adjacent(cells.len() as int, cells[0].len() as int, c)
}

/// The neighbours of a position are at most four, all of them lie in the
/// grid, no two of them are the same, and each is one step away from the
/// position, along exactly one axis.
pub proof fn lemma_adjacent(height: int, width: int, c: (usize, usize))
    requires
        0 <= height <= usize::MAX,
        0 <= width <= usize::MAX,
    ensures
        adjacent(height, width, c).len() <= 4,
        forall|k: int|
            0 <= k < adjacent(height, width, c).len() ==> {
                let d = #[trigger] adjacent(height, width, c)[k];
                &&& d.0 < height
                &&& d.1 < width
                &&& manhattan(c, d) == 1
            },
        forall|k: int, l: int|
            0 <= k < l < adjacent(height, width, c).len() ==> adjacent(height, width, c)[k]
                != adjacent(height, width, c)[l],
{
}

/// The number of steps between two positions when every step goes to one of
/// the four neighbours.
pub open spec fn manhattan(a: (usize, usize), b: (usize, usize)) -> int {
    (if a.0 <= b.0 {
        b.0 - a.0
    } else {
        a.0 - b.0
    }) + (if a.1 <= b.1 {
        b.1 - a.1
    } else {
        a.1 - b.1
    })
}

/// Every position of the grid that is one step away from a position of the
/// grid is among its neighbours.
pub proof fn lemma_adjacent_complete(height: int, width: int, c: (usize, usize), d: (usize, usize))
    requires
        0 <= height <= usize::MAX,
        0 <= width <= usize::MAX,
        c.0 < height,
        c.1 < width,
        d.0 < height,
        d.1 < width,
        manhattan(c, d) == 1,
    ensures
        exists|k: int|
            0 <= k < adjacent(height, width, c).len() && (#[trigger] adjacent(height, width, c)[k])
                == d,
{
    let around = adjacent(height, width, c);
    let up: Seq<(usize, usize)> = if 1 <= c.0 <= height && c.1 < width {
        seq![((c.0 - 1) as usize, c.1)]
    } else {
        seq![]
    };
    let down: Seq<(usize, usize)> = if c.0 + 1 < height && c.1 < width {
        seq![((c.0 + 1) as usize, c.1)]
    } else {
        seq![]
    };
    let left: Seq<(usize, usize)> = if c.0 < height && 1 <= c.1 <= width {
        seq![(c.0, (c.1 - 1) as usize)]
    } else {
        seq![]
    };
    let right: Seq<(usize, usize)> = if c.0 < height && c.1 + 1 < width {
        seq![(c.0, (c.1 + 1) as usize)]
    } else {
        seq![]
    };
    assert(around == up + down + left + right);
    if d.0 + 1 == c.0 {
        assert(around[0] == d);
    } else if d.0 == c.0 + 1 {
        assert(around[up.len() as int] == d);
    } else if d.1 + 1 == c.1 {
        assert(around[(up.len() + down.len()) as int] == d);
    } else {
        assert(around[(up.len() + down.len() + left.len()) as int] == d);
    }
}

/// Replacing a cell by one that knows its coordinates and whose parent, if it
/// has one, lies in the grid keeps the grid well formed, and changes no
/// other cell.
pub proof fn lemma_put_wf(cells: Seq<Seq<Node>>, c: (usize, usize), node: Node)
    requires
        cells_wf(cells),
        inside(cells, c),
        node.x == c.0,
        node.y == c.1,
        node.parent_coords matches Some(p) ==> inside(cells, p),
    ensures
        cells_wf(put(cells, c, node)),
        put(cells, c, node).len() == cells.len(),
        put(cells, c, node)[0].len() == cells[0].len(),
        at(put(cells, c, node), c) == node,
        forall|d: (usize, usize)|
            #![trigger inside(put(cells, c, node), d)]
            inside(put(cells, c, node), d) == inside(cells, d),
        forall|d: (usize, usize)|
            inside(cells, d) && d != c ==> #[trigger] at(put(cells, c, node), d) == at(cells, d),
{
    let updated = put(cells, c, node);
    assert forall|i: int, j: int| 0 <= i < updated.len() && 0 <= j < updated[0].len() implies {
        let n = #[trigger] updated[i][j];
        &&& n.x == i
        &&& n.y == j
        &&& n.parent_coords matches Some(p) ==> inside(updated, p)
    } by {
        let old_n = cells[i][j];
        assert(old_n.parent_coords matches Some(p) ==> inside(cells, p));
    }
}

/// Replacing a cell moves no coordinate out of the grid.
pub proof fn lemma_put_keeps_inside(
    cells: Seq<Seq<Node>>,
    c: (usize, usize),
    node: Node,
    coords: Seq<(usize, usize)>,
)
    requires
        inside(cells, c),
        forall|k: int| 0 <= k < coords.len() ==> inside(cells, #[trigger] coords[k]),
    ensures
        forall|k: int| 0 <= k < coords.len() ==> inside(put(cells, c, node), #[trigger] coords[k]),
{
    assert forall|k: int| 0 <= k < coords.len() implies inside(
        put(cells, c, node),
        #[trigger] coords[k],
    ) by {
        assert(inside(cells, coords[k]));
    }
}

/// How many cells of `row` are in state `s`.
pub open spec fn row_count(row: Seq<Node>, s: State) -> nat
    decreases row.len(),
{
    if row.len() == 0 {
        0
    } else {
        row_count(row.drop_last(), s) + if row.last().state == s {
            1nat
        } else {
            0nat
        }
    }
}

/// How many cells of the grid are in state `s`.
pub open spec fn count(cells: Seq<Seq<Node>>, s: State) -> nat
    decreases cells.len(),
{
    if cells.len() == 0 {
        0
    } else {
        count(cells.drop_last(), s) + row_count(cells.last(), s)
    }
}

/// Replacing one cell of a row moves the count of a state by what the old
/// and the new cell contribute to it.
pub proof fn lemma_row_count_update(row: Seq<Node>, j: int, node: Node, s: State)
    requires
        0 <= j < row.len(),
    ensures
        row_count(row.update(j, node), s) + (if row[j].state == s {
            1nat
        } else {
            0nat
        }) == row_count(row, s) + (if node.state == s {
            1nat
        } else {
            0nat
        }),
    decreases row.len(),
{
    let updated = row.update(j, node);
    if j == row.len() - 1 {
        assert(updated.drop_last() =~= row.drop_last());
    } else {
        assert(updated.drop_last() =~= row.drop_last().update(j, node));
        lemma_row_count_update(row.drop_last(), j, node, s);
    }
}

/// Replacing one cell of the grid moves the count of a state by what the old
/// and the new cell contribute to it.
pub proof fn lemma_count_put(cells: Seq<Seq<Node>>, c: (usize, usize), node: Node, s: State)
    requires
        inside(cells, c),
    ensures
        count(put(cells, c, node), s) + (if at(cells, c).state == s {
            1nat
        } else {
            0nat
        }) == count(cells, s) + (if node.state == s {
            1nat
        } else {
            0nat
        }),
    decreases cells.len(),
{
    let updated = put(cells, c, node);
    if c.0 == cells.len() - 1 {
        assert(updated.drop_last() =~= cells.drop_last());
        lemma_row_count_update(cells.last(), c.1 as int, node, s);
    } else {
        assert(updated.drop_last() =~= put(cells.drop_last(), c, node));
        lemma_count_put(cells.drop_last(), c, node, s);
    }
}

/// A row in which no cell is in state `s` counts none.
pub proof fn lemma_row_count_none(row: Seq<Node>, s: State)
    requires
        forall|j: int| 0 <= j < row.len() ==> (#[trigger] row[j]).state != s,
    ensures
        row_count(row, s) == 0,
    decreases row.len(),
{
    if row.len() > 0 {
        assert(row.last() == row[row.len() - 1]);
        assert forall|j: int| 0 <= j < row.drop_last().len() implies (#[trigger] row.drop_last()[j]).state
            != s by {
            assert(row.drop_last()[j] == row[j]);
        }
        lemma_row_count_none(row.drop_last(), s);
    }
}

/// A grid in which no cell is in state `s` counts none.
pub proof fn lemma_count_none(cells: Seq<Seq<Node>>, s: State)
    requires
        forall|i: int, j: int|
            0 <= i < cells.len() && 0 <= j < cells[i].len() ==> (#[trigger] cells[i][j]).state != s,
    ensures
        count(cells, s) == 0,
    decreases cells.len(),
{
    if cells.len() > 0 {
        let front = cells.drop_last();
        assert forall|i: int, j: int| 0 <= i < front.len() && 0 <= j < front[i].len() implies (
        #[trigger] front[i][j]).state != s by {
            assert(front[i] == cells[i]);
            assert(cells[i][j].state != s);
        }
        lemma_count_none(front, s);
        assert(cells.last() == cells[cells.len() - 1]);
        assert forall|j: int| 0 <= j < cells.last().len() implies (#[trigger] cells.last()[j]).state
            != s by {
            assert(cells[cells.len() - 1][j].state != s);
        }
        lemma_row_count_none(cells.last(), s);
    }
}

/// Two rows that have a cell in state `s` at the same places count the
/// same.
pub proof fn lemma_row_count_same(a: Seq<Node>, b: Seq<Node>, s: State)
    requires
        a.len() == b.len(),
        forall|j: int| 0 <= j < a.len() ==> ((#[trigger] a[j]).state == s) == (b[j].state == s),
    ensures
        row_count(a, s) == row_count(b, s),
    decreases a.len(),
{
    if a.len() > 0 {
        assert((a[a.len() - 1].state == s) == (b[a.len() - 1].state == s));
        assert forall|j: int| 0 <= j < a.drop_last().len() implies ((#[trigger] a.drop_last()[j]).state
            == s) == (b.drop_last()[j].state == s) by {
            assert((a[j].state == s) == (b[j].state == s));
        }
        lemma_row_count_same(a.drop_last(), b.drop_last(), s);
    }
}

/// Two grids that have a cell in state `s` at the same places count the
/// same.
pub proof fn lemma_count_same(a: Seq<Seq<Node>>, b: Seq<Seq<Node>>, s: State)
    requires
        a.len() == b.len(),
        forall|i: int| 0 <= i < a.len() ==> (#[trigger] a[i]).len() == b[i].len(),
        forall|i: int, j: int|
            0 <= i < a.len() && 0 <= j < a[i].len() ==> ((#[trigger] a[i][j]).state == s) == (
            b[i][j].state == s),
    ensures
        count(a, s) == count(b, s),
    decreases a.len(),
{
    if a.len() > 0 {
        let n = a.len() - 1;
        let fa = a.drop_last();
        let fb = b.drop_last();
        assert forall|i: int| 0 <= i < fa.len() implies (#[trigger] fa[i]).len() == fb[i].len() by {
            assert(a[i].len() == b[i].len());
        }
        assert forall|i: int, j: int| 0 <= i < fa.len() && 0 <= j < fa[i].len() implies ((
        #[trigger] fa[i][j]).state == s) == (fb[i][j].state == s) by {
            assert(fa[i] == a[i]);
            assert((a[i][j].state == s) == (b[i][j].state == s));
        }
        lemma_count_same(fa, fb, s);
        assert(a[n].len() == b[n].len());
        assert forall|j: int| 0 <= j < a[n].len() implies ((#[trigger] a[n][j]).state == s) == (
        b[n][j].state == s) by {
            assert((a[n][j].state == s) == (b[n][j].state == s));
        }
        lemma_row_count_same(a.last(), b.last(), s);
    }
}

/// The grid after the path was marked from `c` back towards the start: as
/// long as the walk stands on a visited cell, that cell joins the path and
/// the walk goes on to the cell it was discovered from. The walk ends on the
/// first cell that is not visited, which the start never is.
pub open spec fn trace_path(cells: Seq<Seq<Node>>, c: (usize, usize)) -> Seq<Seq<Node>>
    decreases count(cells, State::Visited),
    via trace_path_decreases
{
    if inside(cells, c) && at(cells, c).state == State::Visited {
        let marked = put(cells, c, at(cells, c).marked());
        match at(cells, c).parent_coords {
            Some(p) => trace_path(marked, p),
            None => marked,
        }
    } else {
        cells
    }
}

#[via_fn]
proof fn trace_path_decreases(cells: Seq<Seq<Node>>, c: (usize, usize)) {
    if inside(cells, c) && at(cells, c).state == State::Visited {
        lemma_count_put(cells, c, at(cells, c).marked(), State::Visited);
    }
}

/// The state of one generation of the search while it is under way: the
/// cells, the frontier collected for the next generation, and the frontier
/// cell from which the target was reached, once it has been reached.
pub struct Sweep {
    pub cells: Seq<Seq<Node>>,
    pub next: Seq<(usize, usize)>,
    pub finder: Option<(usize, usize)>,
}

/// The test that every coordinate but `c` passes.
pub open spec fn is_not(c: (usize, usize)) -> spec_fn((usize, usize)) -> bool {
    |d: (usize, usize)| d != c
}

/// The entries of `frontier` other than `c`, in their order.
pub open spec fn without(frontier: Seq<(usize, usize)>, c: (usize, usize)) -> Seq<(usize, usize)> {
    frontier.filter(is_not(c))
}

/// Filtering a sequence that ends in `last` filters what comes before
/// `last`, and keeps `last` if it passes.
pub proof fn lemma_filter_push<A>(s: Seq<A>, last: A, pred: spec_fn(A) -> bool)
    ensures
        s.push(last).filter(pred) == if pred(last) {
            s.filter(pred).push(last)
        } else {
            s.filter(pred)
        },
        Seq::<A>::empty().filter(pred) == Seq::<A>::empty(),
{
    reveal(Seq::filter);
    assert(s.push(last).drop_last() =~= s);
}

/// The cell at `c` taken out of the frontier.
pub open spec fn deactivated(cells: Seq<Seq<Node>>, c: (usize, usize)) -> Seq<Seq<Node>> {
    put(cells, c, Node { active: false, ..at(cells, c) })
}

/// Looks at the neighbours `around[k..]` of the frontier cell `c`, in order.
/// A target ends the generation, with `c` as the cell that reached it. An
/// empty neighbour is visited from `c` and joins the next frontier. Any
/// other neighbour is passed over.
pub open spec fn expand(
    cells: Seq<Seq<Node>>,
    next: Seq<(usize, usize)>,
    c: (usize, usize),
    around: Seq<(usize, usize)>,
    k: int,
) -> Sweep
    decreases around.len() - k,
{
    if k < 0 || k >= around.len() {
        Sweep { cells, next, finder: None }
    } else if at(cells, around[k]).state == State::Target {
        Sweep { cells, next, finder: Some(c) }
    } else if at(cells, around[k]).state == State::Empty {
        expand(
            put(cells, around[k], at(cells, around[k]).visited_from(c.0, c.1)),
            next.push(around[k]),
            c,
            around,
            k + 1,
        )
    } else {
        expand(cells, next, c, around, k + 1)
    }
}

/// Expands the frontier cells `frontier[i..]`, in order, until the target is
/// reached or the frontier is used up. A frontier cell that is itself the
/// target means that start and target coincide: the generation ends there,
/// and the cell has reached itself.
pub open spec fn sweep(
    cells: Seq<Seq<Node>>,
    frontier: Seq<(usize, usize)>,
    i: int,
    next: Seq<(usize, usize)>,
) -> Sweep
    decreases frontier.len() - i,
{
    if i < 0 || i >= frontier.len() {
        Sweep { cells, next, finder: None }
    } else if at(cells, frontier[i]).state == State::Target {
        Sweep { cells, next, finder: Some(frontier[i]) }
    } else {
        let expanded = expand(
            deactivated(cells, frontier[i]),
            next,
            frontier[i],
            neighbour_coords(cells, frontier[i]),
            0,
        );
        if expanded.finder is Some {
            expanded
        } else {
            sweep(expanded.cells, frontier, i + 1, expanded.next)
        }
    }
}

impl GridView {
    /// The grid of `height` rows and `width` columns on which nothing has
    /// happened: every cell empty, the frontier empty.
    pub open spec fn fresh(height: nat, width: nat) -> GridView {
        GridView {
            cells: Seq::new(
                height,
                |i: int| Seq::new(width, |j: int| Node::fresh(i as usize, j as usize)),
            ),
            frontier: Seq::empty(),
        }
    }

    pub open spec fn height(self) -> nat {
        self.cells.len()
    }

    pub open spec fn width(self) -> nat {
        self.cells[0].len()
    }

    /// The cells are well formed and every frontier entry is a cell.
    pub open spec fn wf(self) -> bool {
        &&& cells_wf(self.cells)
        &&& forall|k: int|
            0 <= k < self.frontier.len() ==> inside(self.cells, #[trigger] self.frontier[k])
    }

    /// The grid with the cell at `c` replaced by `node`.
    pub open spec fn with_cell(self, c: (usize, usize), node: Node) -> GridView {
        GridView { cells: put(self.cells, c, node), ..self }
    }

    /// The grid with the cell at `c` put in `state`.
    pub open spec fn with_state(self, c: (usize, usize), state: State) -> GridView {
        self.with_cell(c, Node { state: state, ..at(self.cells, c) })
    }

    /// The grid with the parent of the cell at `c` forgotten.
    pub open spec fn without_parent(self, c: (usize, usize)) -> GridView {
        self.with_cell(c, Node { parent_coords: None, ..at(self.cells, c) })
    }

    /// The grid after `c` joined the frontier.
    pub open spec fn activate(self, c: (usize, usize)) -> GridView {
        GridView {
            cells: put(self.cells, c, Node { active: true, ..at(self.cells, c) }),
            frontier: self.frontier.push(c),
        }
    }

    /// The grid after every entry for `c` left the frontier.
    pub open spec fn deactivate(self, c: (usize, usize)) -> GridView {
        GridView { cells: deactivated(self.cells, c), frontier: without(self.frontier, c) }
    }

    /// The generation that starts from this grid.
    pub open spec fn sweep(self) -> Sweep {
        sweep(self.cells, self.frontier, 0, Seq::empty())
    }

    /// The grid after one generation of the search. When the target was
    /// reached, the path is marked from the cell that reached it back to the
    /// start, and the frontier stays as it was. Where start and target
    /// coincide that walk begins on the target, which is no visited cell, so
    /// it marks nothing. When the target was not reached, the cells
    /// discovered in this generation are the new frontier.
    pub open spec fn step(self) -> GridView {
        let s = self.sweep();
        match s.finder {
            Some(c) => GridView { cells: trace_path(s.cells, c), frontier: self.frontier },
            None => GridView { cells: s.cells, frontier: s.next },
        }
    }

    /// What one generation reports: the search goes on while the target has
    /// not been reached and there is a frontier to expand.
    pub open spec fn outcome(self) -> Solve {
        let s = self.sweep();
        if s.finder is None && s.next.len() > 0 {
            Solve::Continue
        } else {
            Solve::Stop
        }
    }

    /// The grid after the search ran to its end: generation after generation
    /// until one of them reports `Stop`. Every generation that reports
    /// `Continue` has visited an empty cell, so the search ends.
    pub open spec fn run(self) -> GridView
        decreases count(self.cells, State::Empty),
        when self.wf()
        via Self::run_decreases
    {
        if self.outcome() == Solve::Continue {
            self.step().run()
        } else {
            self.step()
        }
    }

    #[via_fn]
    proof fn run_decreases(self) {
        lemma_step(self);
    }
}

} // verus!
