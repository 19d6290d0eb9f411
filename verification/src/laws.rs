//! What holds of every search: a parent is recorded once, a target behind
//! walls is never reached, and a reset forgets the search.
use vstd::prelude::*;
use crate::discovery::frontier_sees_target;
use crate::discovery::lemma_scanned_at;
use crate::discovery::lemma_scanned_targets;
use crate::discovery::lemma_sweep_finder;
use crate::discovery::lemma_sweep_next;
use crate::discovery::occurs;
use crate::discovery::sees_target;
use crate::matrix::Solve;
use crate::model::at;
use crate::model::cells_wf;
use crate::model::count;
use crate::model::inside;
use crate::model::lemma_adjacent;
use crate::model::lemma_adjacent_complete;
use crate::model::lemma_count_same;
use crate::model::neighbour_coords;
use crate::model::GridView;
use crate::node::Node;
use crate::node::State;
use crate::pathfinder::dimensions_of;
use crate::pathfinder::window_fits;
use crate::pathfinder::Msg;
use crate::pathfinder::PathfinderView;
use crate::progress::advanced;
use crate::progress::grid_advanced;
use crate::progress::lemma_advanced_at;
use crate::progress::lemma_run;
use crate::progress::lemma_step;
use crate::progress::lemma_sweep;
use crate::progress::scanned;

verus! {

/// Only visited and path cells have a parent, and each of them has one.
pub open spec fn provenance_kept(cells: Seq<Seq<Node>>) -> bool {
    forall|i: int, j: int|
        0 <= i < cells.len() && 0 <= j < cells[i].len() ==> ((
        #[trigger] cells[i][j]).parent_coords is Some <==> cells[i][j].state == State::Visited
            || cells[i][j].state == State::Path)
}

/// A fresh grid is well formed, and no cell of it has a parent.
pub proof fn law_fresh_grid(height: nat, width: nat)
    requires
        1 <= height <= usize::MAX,
        1 <= width <= usize::MAX,
    ensures
        GridView::fresh(height, width).wf(),
        provenance_kept(GridView::fresh(height, width).cells),
{
}

/// A generation gives a parent to empty cells only: a cell that is not
/// empty keeps the parent it has, or has none, and does not become empty.
pub proof fn law_step_sets_parent_once(g: GridView, c: (usize, usize))
    requires
        g.wf(),
        inside(g.cells, c),
        at(g.cells, c).state != State::Empty,
    ensures
        at(g.step().cells, c).parent_coords == at(g.cells, c).parent_coords,
        at(g.step().cells, c).state != State::Empty,
{
    lemma_step(g);
    lemma_advanced_at(g.cells, g.step().cells, c);
}

/// A whole search gives a parent to empty cells only: a cell that is not
/// empty keeps the parent it has, or has none, and does not become empty.
pub proof fn law_run_sets_parent_once(g: GridView, c: (usize, usize))
    requires
        g.wf(),
        inside(g.cells, c),
        at(g.cells, c).state != State::Empty,
    ensures
        at(g.run().cells, c).parent_coords == at(g.cells, c).parent_coords,
        at(g.run().cells, c).state != State::Empty,
{
    lemma_run(g);
    lemma_advanced_at(g.cells, g.run().cells, c);
}

/// Where only visited and path cells have a parent, that is still so after
/// a grid has advanced.
pub proof fn lemma_advanced_keeps_provenance(a: Seq<Seq<Node>>, b: Seq<Seq<Node>>)
    requires
        grid_advanced(a, b),
        provenance_kept(a),
    ensures
        provenance_kept(b),
{
    assert forall|i: int, j: int| 0 <= i < b.len() && 0 <= j < b[i].len() implies ((
    #[trigger] b[i][j]).parent_coords is Some <==> b[i][j].state == State::Visited || b[i][j].state
        == State::Path) by {
        assert(advanced(a[i][j], b[i][j]));
    }
}

/// Where only visited and path cells have a parent, that is still so after
/// a generation, and after a whole search.
pub proof fn law_search_keeps_provenance(g: GridView)
    requires
        g.wf(),
        provenance_kept(g.cells),
    ensures
        provenance_kept(g.step().cells),
        provenance_kept(g.run().cells),
{
    lemma_step(g);
    lemma_run(g);
    lemma_advanced_keeps_provenance(g.cells, g.step().cells);
    lemma_advanced_keeps_provenance(g.cells, g.run().cells);
}

/// A reset forgets the search: whatever the session was, the grid after a
/// reset is the grid of a session that has just begun, and so are stage,
/// start and target.
pub proof fn law_reset_forgets(session: PathfinderView, window_height: usize, window_width: usize)
    requires
        window_fits(window_height, window_width),
    ensures
        ({
            let after = session.update(Msg::Reset, window_height, window_width).0;
            let begun = PathfinderView::created(window_height, window_width);
            &&& after.grid == begun.grid
            &&& after.stage == begun.stage
            &&& after.start == begun.start
            &&& after.target == begun.target
            &&& after.wf()
        }),
{
    let (height, width) = dimensions_of(window_height, window_width);
    law_fresh_grid(height as nat, width as nat);
}

/// Every neighbour of every target is a wall.
pub open spec fn target_enclosed(cells: Seq<Seq<Node>>) -> bool {
    forall|t: (usize, usize), k: int|
        inside(cells, t) && at(cells, t).state == State::Target && 0 <= k < neighbour_coords(
            cells,
            t,
        ).len() ==> at(cells, #[trigger] neighbour_coords(cells, t)[k]).state == State::Wall
}

/// If `d` is a neighbour of `c`, then `c` is a neighbour of `d`.
pub proof fn lemma_neighbours_symmetric(cells: Seq<Seq<Node>>, c: (usize, usize), k: int)
    requires
        cells_wf(cells),
        inside(cells, c),
        0 <= k < neighbour_coords(cells, c).len(),
    ensures
        inside(cells, neighbour_coords(cells, c)[k]),
        occurs(neighbour_coords(cells, neighbour_coords(cells, c)[k]), 0, c),
{
    let h = cells.len() as int;
    let w = cells[0].len() as int;
    let d = neighbour_coords(cells, c)[k];
    lemma_adjacent(h, w, c);
    assert(cells[c.0 as int].len() == w);
    assert(cells[d.0 as int].len() == w);
    lemma_adjacent_complete(h, w, d, c);
}

/// One generation on a grid whose targets are enclosed, from a frontier that
/// sees no target: the target is not reached, no path is marked, the
/// targets stay enclosed, and the new frontier sees no target either.
pub proof fn lemma_enclosed_step(g: GridView)
    requires
        g.wf(),
        target_enclosed(g.cells),
        !frontier_sees_target(g.cells, g.frontier, 0),
    ensures
        g.sweep().finder is None,
        g.step().wf(),
        target_enclosed(g.step().cells),
        !frontier_sees_target(g.step().cells, g.step().frontier, 0),
        count(g.step().cells, State::Path) == count(g.cells, State::Path),
{
    let empty = Seq::<(usize, usize)>::empty();
    let s = g.sweep();
    lemma_step(g);
    lemma_sweep(g.cells, g.frontier, 0, empty);
    lemma_sweep_finder(g.cells, g.frontier, 0, empty);
    lemma_sweep_next(g.cells, g.frontier, 0, empty);
    lemma_scanned_targets(g.cells, s.cells);
    assert(s.cells[0].len() == g.cells[0].len());
    // No path is marked.
    assert forall|i: int, j: int| 0 <= i < g.cells.len() && 0 <= j < g.cells[i].len() implies ((
    #[trigger] g.cells[i][j]).state == State::Path) == (s.cells[i][j].state == State::Path) by {
        assert(scanned(g.cells[i][j], s.cells[i][j]));
    }
    lemma_count_same(g.cells, s.cells, State::Path);
    // The targets stay enclosed.
    assert forall|t: (usize, usize), k: int|
        inside(s.cells, t) && at(s.cells, t).state == State::Target && 0 <= k < neighbour_coords(
            s.cells,
            t,
        ).len() implies at(s.cells, #[trigger] neighbour_coords(s.cells, t)[k]).state
        == State::Wall by {
        assert(inside(g.cells, t));
        lemma_scanned_at(g.cells, s.cells, t);
        assert(neighbour_coords(s.cells, t) == neighbour_coords(g.cells, t));
        let d = neighbour_coords(g.cells, t)[k];
        lemma_neighbours_symmetric(g.cells, t, k);
        assert(at(g.cells, d).state == State::Wall);
        lemma_scanned_at(g.cells, s.cells, d);
    }
    // The new frontier sees no target.
    if frontier_sees_target(s.cells, s.next, 0) {
        let j = choose|j: int| 0 <= j < s.next.len() && sees_target(s.cells, #[trigger] s.next[j]);
        let v = s.next[j];
        assert(at(s.cells, v).state == State::Visited);
        let k = choose|k: int|
            0 <= k < neighbour_coords(s.cells, v).len() && at(
                s.cells,
                #[trigger] neighbour_coords(s.cells, v)[k],
            ).state == State::Target;
        let t = neighbour_coords(s.cells, v)[k];
        lemma_neighbours_symmetric(s.cells, v, k);
        let back = choose|back: int|
            0 <= back < neighbour_coords(s.cells, t).len() && (#[trigger] neighbour_coords(
                s.cells,
                t,
            )[back]) == v;
        assert(at(s.cells, neighbour_coords(s.cells, t)[back]).state == State::Wall);
        assert(false);
    }
}

/// A target behind walls is never reached. On a grid where every neighbour
/// of every target is a wall, a search from a frontier that sees no target
/// comes to its end with the frontier empty and with no path marked: no
/// cell has become a path cell.
///
/// A frontier that sees a target is one that holds a target, or a cell
/// next to one, which here can only be a wall. From such a frontier the
/// search ends at once, with the frontier as it was.
pub proof fn law_enclosed_target_is_not_reached(g: GridView)
    requires
        g.wf(),
        target_enclosed(g.cells),
        !frontier_sees_target(g.cells, g.frontier, 0),
    ensures
        g.run().frontier.len() == 0,
        count(g.run().cells, State::Path) == count(g.cells, State::Path),
        count(g.cells, State::Path) == 0 ==> count(g.run().cells, State::Path) == 0,
    decreases count(g.cells, State::Empty),
{
    lemma_step(g);
    lemma_enclosed_step(g);
    if g.outcome() == Solve::Continue {
        law_enclosed_target_is_not_reached(g.step());
    }
}

/// Where start and target are one cell, the search ends at once. A search
/// whose first frontier cell is a target reports `Stop` in its first
/// generation and leaves the grid as it is: nothing is visited, and the
/// path is that one cell.
pub proof fn law_coincident_start_and_target(g: GridView)
    requires
        g.wf(),
        g.frontier.len() > 0,
        at(g.cells, g.frontier[0]).state == State::Target,
    ensures
        g.outcome() == Solve::Stop,
        g.step() == g,
        g.run() == g,
{
    assert(inside(g.cells, g.frontier[0]));
}

} // verus!
