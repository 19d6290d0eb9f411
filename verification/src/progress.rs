//! What every generation of the search keeps and what it changes: the grid
//! stays well formed, a cell only ever moves forward (from empty to visited
//! to path), and a generation after which the search goes on has used up at
//! least one empty cell.
use vstd::prelude::*;
use crate::matrix::Solve;
use crate::model::at;
use crate::model::cells_wf;
use crate::model::count;
use crate::model::deactivated;
use crate::model::expand;
use crate::model::inside;
use crate::model::lemma_count_put;
use crate::model::lemma_put_wf;
use crate::model::neighbour_coords;
use crate::model::lemma_adjacent;
use crate::model::put;
use crate::model::sweep;
use crate::model::trace_path;
use crate::model::GridView;
use crate::node::Node;
use crate::node::State;

verus! {

/// Two grids have the same rows and columns.
pub open spec fn same_shape(before: Seq<Seq<Node>>, after: Seq<Seq<Node>>) -> bool {
    &&& before.len() == after.len()
    &&& forall|i: int|
        #![trigger before[i]]
        #![trigger after[i]]
        0 <= i < before.len() ==> before[i].len() == after[i].len()
}

/// How a search may change one cell. The cell stays where it is. An empty
/// cell may be visited, a visited cell may join the path, and no other state
/// changes. A parent is recorded when, and only when, the cell stops being
/// empty; a parent that is there stays.
pub open spec fn advanced(a: Node, b: Node) -> bool {
    &&& b.x == a.x
    &&& b.y == a.y
    &&& match a.state {
        State::Empty => b.state == State::Empty || b.state == State::Visited || b.state
            == State::Path,
        State::Visited => b.state == State::Visited || b.state == State::Path,
        _ => b.state == a.state,
    }
    &&& if a.state == State::Empty && b.state != State::Empty {
        b.parent_coords is Some
    } else {
        b.parent_coords == a.parent_coords
    }
}

/// Every cell of `after` is the cell of `before` at the same place, changed
/// as a search may change it.
pub open spec fn grid_advanced(before: Seq<Seq<Node>>, after: Seq<Seq<Node>>) -> bool {
    &&& same_shape(before, after)
    &&& forall|i: int, j: int|
        0 <= i < before.len() && 0 <= j < before[i].len() ==> advanced(
            #[trigger] before[i][j],
            after[i][j],
        )
}

/// How one generation may change a cell before any path is marked. The cell
/// stays where it is. An empty cell may be visited, and then it has a
/// parent. Nothing else about state or parent changes.
pub open spec fn scanned(a: Node, b: Node) -> bool {
    &&& b.x == a.x
    &&& b.y == a.y
    &&& if a.state == State::Empty && b.state != State::Empty {
        b.state == State::Visited && b.parent_coords is Some
    } else {
        b.state == a.state && b.parent_coords == a.parent_coords
    }
}

/// Every cell of `after` is the cell of `before` at the same place, changed
/// as one generation may change it before any path is marked.
pub open spec fn grid_scanned(before: Seq<Seq<Node>>, after: Seq<Seq<Node>>) -> bool {
    &&& same_shape(before, after)
    &&& forall|i: int, j: int|
        0 <= i < before.len() && 0 <= j < before[i].len() ==> scanned(
            #[trigger] before[i][j],
            after[i][j],
        )
}

/// Replacing a cell by what one generation may make of it.
pub proof fn lemma_put_scanned(cells: Seq<Seq<Node>>, c: (usize, usize), node: Node)
    requires
        inside(cells, c),
        scanned(at(cells, c), node),
    ensures
        grid_scanned(cells, put(cells, c, node)),
{
}

/// What one generation may do twice, it may do.
pub proof fn lemma_scanned_trans(a: Seq<Seq<Node>>, b: Seq<Seq<Node>>, c: Seq<Seq<Node>>)
    requires
        grid_scanned(a, b),
        grid_scanned(b, c),
    ensures
        grid_scanned(a, c),
{
    assert forall|i: int, j: int| 0 <= i < a.len() && 0 <= j < a[i].len() implies scanned(
        #[trigger] a[i][j],
        c[i][j],
    ) by {
        assert(scanned(a[i][j], b[i][j]));
        assert(scanned(b[i][j], c[i][j]));
    }
}

/// What one generation may do to a grid advances it.
pub proof fn lemma_scanned_advanced(a: Seq<Seq<Node>>, b: Seq<Seq<Node>>)
    requires
        grid_scanned(a, b),
    ensures
        grid_advanced(a, b),
{
    assert forall|i: int, j: int| 0 <= i < a.len() && 0 <= j < a[i].len() implies advanced(
        #[trigger] a[i][j],
        b[i][j],
    ) by {
        assert(scanned(a[i][j], b[i][j]));
    }
}

/// Replacing a cell by a later stage of itself advances the grid.
pub proof fn lemma_put_advanced(cells: Seq<Seq<Node>>, c: (usize, usize), node: Node)
    requires
        inside(cells, c),
        advanced(at(cells, c), node),
    ensures
        grid_advanced(cells, put(cells, c, node)),
{
}

/// Marking the path keeps the grid well formed, advances it, and leaves the
/// number of empty cells as it was.
pub proof fn lemma_trace_path(cells: Seq<Seq<Node>>, c: (usize, usize))
    requires
        cells_wf(cells),
    ensures
        cells_wf(trace_path(cells, c)),
        grid_advanced(cells, trace_path(cells, c)),
        count(trace_path(cells, c), State::Empty) == count(cells, State::Empty),
    decreases count(cells, State::Visited),
{
    if inside(cells, c) && at(cells, c).state == State::Visited {
        let node = at(cells, c).marked();
        let marked = put(cells, c, node);
        lemma_put_wf(cells, c, node);
        lemma_put_advanced(cells, c, node);
        lemma_count_put(cells, c, node, State::Visited);
        lemma_count_put(cells, c, node, State::Empty);
        match at(cells, c).parent_coords {
            Some(p) => {
                lemma_trace_path(marked, p);
                lemma_advanced_trans(cells, marked, trace_path(marked, p));
            },
            None => {},
        }
    } else {
        lemma_advanced_refl(cells);
    }
}

/// What changes when a grid advances: the cell at `c` is a later stage of
/// what it was.
pub proof fn lemma_advanced_at(a: Seq<Seq<Node>>, b: Seq<Seq<Node>>, c: (usize, usize))
    requires
        grid_advanced(a, b),
        inside(a, c),
    ensures
        advanced(at(a, c), at(b, c)),
        inside(b, c),
{
    assert(advanced(a[c.0 as int][c.1 as int], b[c.0 as int][c.1 as int]));
}

/// A grid is an advanced form of itself.
pub proof fn lemma_advanced_refl(cells: Seq<Seq<Node>>)
    ensures
        grid_advanced(cells, cells),
{
}

/// Advancing twice is advancing.
pub proof fn lemma_advanced_trans(a: Seq<Seq<Node>>, b: Seq<Seq<Node>>, c: Seq<Seq<Node>>)
    requires
        grid_advanced(a, b),
        grid_advanced(b, c),
    ensures
        grid_advanced(a, c),
{
    assert forall|i: int, j: int| 0 <= i < a.len() && 0 <= j < a[i].len() implies advanced(
        #[trigger] a[i][j],
        c[i][j],
    ) by {
        assert(advanced(a[i][j], b[i][j]));
        assert(advanced(b[i][j], c[i][j]));
    }
}

/// Coordinates that lie in a grid lie in every grid of the same shape.
pub proof fn lemma_same_shape_inside(
    before: Seq<Seq<Node>>,
    after: Seq<Seq<Node>>,
    coords: Seq<(usize, usize)>,
)
    requires
        same_shape(before, after),
        forall|m: int| 0 <= m < coords.len() ==> inside(before, #[trigger] coords[m]),
    ensures
        forall|m: int| 0 <= m < coords.len() ==> inside(after, #[trigger] coords[m]),
{
    assert forall|m: int| 0 <= m < coords.len() implies inside(after, #[trigger] coords[m]) by {
        assert(inside(before, coords[m]));
    }
}

/// What looking at the neighbours of one frontier cell keeps and changes.
pub proof fn lemma_expand(
    cells: Seq<Seq<Node>>,
    next: Seq<(usize, usize)>,
    c: (usize, usize),
    around: Seq<(usize, usize)>,
    k: int,
)
    requires
        cells_wf(cells),
        0 <= k <= around.len(),
        forall|m: int| 0 <= m < around.len() ==> inside(cells, #[trigger] around[m]),
        forall|m: int| 0 <= m < next.len() ==> inside(cells, #[trigger] next[m]),
        inside(cells, c),
    ensures
        ({
            let e = expand(cells, next, c, around, k);
            &&& cells_wf(e.cells)
            &&& grid_scanned(cells, e.cells)
            &&& forall|m: int| 0 <= m < e.next.len() ==> inside(cells, #[trigger] e.next[m])
            &&& count(e.cells, State::Empty) + e.next.len() == count(cells, State::Empty)
                + next.len()
            &&& e.finder matches Some(f) ==> f == c
        }),
    decreases around.len() - k,
{
    if k >= around.len() {
    } else if at(cells, around[k]).state == State::Target {
    } else if at(cells, around[k]).state == State::Empty {
        let d = around[k];
        let node = at(cells, d).visited_from(c.0, c.1);
        let visited = put(cells, d, node);
        let grown = next.push(d);
        lemma_put_wf(cells, d, node);
        lemma_put_scanned(cells, d, node);
        lemma_count_put(cells, d, node, State::Empty);
        lemma_same_shape_inside(cells, visited, around);
        assert forall|m: int| 0 <= m < grown.len() implies inside(visited, #[trigger] grown[m]) by {
            if m < next.len() {
                assert(inside(cells, next[m]));
            }
        }
        lemma_expand(visited, grown, c, around, k + 1);
        let e = expand(visited, grown, c, around, k + 1);
        lemma_scanned_trans(cells, visited, e.cells);
        lemma_same_shape_inside(visited, cells, e.next);
    } else {
        lemma_expand(cells, next, c, around, k + 1);
    }
}

/// What one generation keeps and changes, from frontier entry `i` on, before
/// any path is marked.
pub proof fn lemma_sweep(
    cells: Seq<Seq<Node>>,
    frontier: Seq<(usize, usize)>,
    i: int,
    next: Seq<(usize, usize)>,
)
    requires
        cells_wf(cells),
        0 <= i <= frontier.len(),
        forall|m: int| 0 <= m < frontier.len() ==> inside(cells, #[trigger] frontier[m]),
        forall|m: int| 0 <= m < next.len() ==> inside(cells, #[trigger] next[m]),
    ensures
        ({
            let s = sweep(cells, frontier, i, next);
            &&& cells_wf(s.cells)
            &&& grid_scanned(cells, s.cells)
            &&& forall|m: int| 0 <= m < s.next.len() ==> inside(cells, #[trigger] s.next[m])
            &&& count(s.cells, State::Empty) + s.next.len() == count(cells, State::Empty)
                + next.len()
            &&& s.finder matches Some(f) ==> inside(cells, f)
        }),
    decreases frontier.len() - i,
{
    if i >= frontier.len() {
    } else if at(cells, frontier[i]).state == State::Target {
    } else {
        let c = frontier[i];
        let node = Node { active: false, ..at(cells, c) };
        let calm = deactivated(cells, c);
        let around = neighbour_coords(cells, c);
        lemma_put_wf(cells, c, node);
        lemma_put_scanned(cells, c, node);
        lemma_count_put(cells, c, node, State::Empty);
        lemma_adjacent(cells.len() as int, cells[0].len() as int, c);
        assert forall|m: int| 0 <= m < around.len() implies inside(calm, #[trigger] around[m]) by {
            assert(around[m].0 < cells.len());
            assert(cells[around[m].0 as int].len() == cells[0].len());
        }
        lemma_same_shape_inside(cells, calm, next);
        lemma_expand(calm, next, c, around, 0);
        let e = expand(calm, next, c, around, 0);
        lemma_scanned_trans(cells, calm, e.cells);
        lemma_same_shape_inside(calm, cells, e.next);
        if e.finder is None {
            lemma_same_shape_inside(cells, e.cells, frontier);
            lemma_same_shape_inside(cells, e.cells, e.next);
            lemma_sweep(e.cells, frontier, i + 1, e.next);
            let s = sweep(e.cells, frontier, i + 1, e.next);
            lemma_scanned_trans(cells, e.cells, s.cells);
            lemma_same_shape_inside(e.cells, cells, s.next);
        }
    }
}

/// One generation keeps the grid well formed and advances it. When it
/// reports `Continue`, the grid has fewer empty cells than before.
pub proof fn lemma_step(g: GridView)
    requires
        g.wf(),
    ensures
        g.step().wf(),
        grid_advanced(g.cells, g.step().cells),
        g.outcome() == Solve::Continue ==> count(g.step().cells, State::Empty) < count(
            g.cells,
            State::Empty,
        ),
{
    let empty = Seq::<(usize, usize)>::empty();
    lemma_sweep(g.cells, g.frontier, 0, empty);
    let s = g.sweep();
    lemma_same_shape_inside(g.cells, s.cells, s.next);
    lemma_scanned_advanced(g.cells, s.cells);
    match s.finder {
        Some(c) => {
            lemma_trace_path(s.cells, c);
            lemma_advanced_trans(g.cells, s.cells, g.step().cells);
        },
        None => {},
    }
    lemma_same_shape_inside(g.cells, g.step().cells, g.frontier);
}

/// Running the search to its end keeps the grid well formed and advances it.
pub proof fn lemma_run(g: GridView)
    requires
        g.wf(),
    ensures
        g.run().wf(),
        grid_advanced(g.cells, g.run().cells),
    decreases count(g.cells, State::Empty),
{
    lemma_step(g);
    if g.outcome() == Solve::Continue {
        lemma_run(g.step());
        lemma_advanced_trans(g.cells, g.step().cells, g.run().cells);
    }
}

} // verus!
