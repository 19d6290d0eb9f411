//! What holds of a session at every moment: there is one start and one
//! target once they are placed, each where the session says it is, and
//! only cells that a search has reached have a parent.
use vstd::prelude::*;
use crate::clearing::cleared_node;
use crate::clearing::lemma_row_starts;
use crate::clearing::row_starts;
use crate::clearing::starts;
use crate::discovery::sees_target;
use crate::laws::law_fresh_grid;
use crate::laws::lemma_advanced_keeps_provenance;
use crate::laws::provenance_kept;
use crate::model::at;
use crate::model::cells_wf;
use crate::model::count;
use crate::model::inside;
use crate::model::is_not;
use crate::model::lemma_filter_push;
use crate::model::lemma_put_keeps_inside;
use crate::model::lemma_put_wf;
use crate::model::without;
use crate::model::GridView;
use crate::node::Node;
use crate::node::State;
use crate::pathfinder::dimensions_of;
use crate::pathfinder::window_fits;
use crate::pathfinder::Msg;
use crate::pathfinder::PathfinderView;
use crate::pathfinder::Stage;
use crate::progress::grid_advanced;
use crate::progress::lemma_advanced_at;
use crate::progress::lemma_run;
use crate::progress::lemma_step;
use crate::shortest::cold_before;
use crate::shortest::is_marked_way;
use crate::shortest::law_search_finds_shortest_path;
use crate::shortest::reach;
use crate::shortest::searchable;

verus! {

/// The start is where the session says it is and nowhere else, and so is
/// the target.
pub open spec fn placed(
    cells: Seq<Seq<Node>>,
    start: Option<(usize, usize)>,
    target: Option<(usize, usize)>,
) -> bool {
    forall|c: (usize, usize)|
        inside(cells, c) ==> {
            &&& (#[trigger] at(cells, c)).state == State::Start <==> start == Some(c)
            &&& at(cells, c).state == State::Target <==> target == Some(c)
        }
}

/// No search has touched the grid: no cell is visited or on a path, no cell
/// has a parent, and the frontier is the start, if there is one.
pub open spec fn unsearched(g: GridView, start: Option<(usize, usize)>) -> bool {
    &&& forall|c: (usize, usize)|
        inside(g.cells, c) ==> {
            &&& (#[trigger] at(g.cells, c)).state != State::Visited
            &&& at(g.cells, c).state != State::Path
            &&& at(g.cells, c).parent_coords is None
        }
    &&& g.frontier == match start {
        Some(c) => seq![c],
        None => Seq::empty(),
    }
}

/// The stage is one that comes before the first search.
pub open spec fn before_search(stage: Stage) -> bool {
    stage == Stage::Init || stage == Stage::StartSet || stage == Stage::TargetSet
}

impl PathfinderView {
    /// The session is in order. Start and target are where the session says
    /// they are, and nowhere else. The start is placed from the second
    /// stage on and the target from the third; at the first stage there is
    /// no target. Only visited and path cells have a parent. Before the
    /// first search no search has touched the grid.
    pub open spec fn steady(self) -> bool {
        &&& self.wf()
        &&& placed(self.grid.cells, self.start, self.target)
        &&& provenance_kept(self.grid.cells)
        &&& self.stage == Stage::Init ==> self.target is None
        &&& self.stage != Stage::Init ==> self.start is Some
        &&& self.stage != Stage::Init && self.stage != Stage::StartSet ==> self.target is Some
        &&& before_search(self.stage) ==> unsearched(self.grid, self.start)
    }
}

/// What replacing a cell does to a grid: the grid stays well formed, the
/// cell is the new one, and the other cells and the frontier are as they
/// were.
pub proof fn lemma_with_cell(g: GridView, c: (usize, usize), node: Node)
    requires
        g.wf(),
        inside(g.cells, c),
        node.x == c.0,
        node.y == c.1,
        node.parent_coords matches Some(p) ==> inside(g.cells, p),
    ensures
        g.with_cell(c, node).wf(),
        g.with_cell(c, node).frontier == g.frontier,
        at(g.with_cell(c, node).cells, c) == node,
        forall|d: (usize, usize)|
            #![trigger inside(g.with_cell(c, node).cells, d)]
            inside(g.with_cell(c, node).cells, d) == inside(g.cells, d),
        forall|d: (usize, usize)|
            inside(g.cells, d) && d != c ==> #[trigger] at(g.with_cell(c, node).cells, d) == at(
                g.cells,
                d,
            ),
{
    lemma_put_wf(g.cells, c, node);
    lemma_put_keeps_inside(g.cells, c, node, g.frontier);
}

/// The entries that are left when `c` is taken out of a frontier are
/// entries of the frontier.
pub proof fn lemma_without_inside(cells: Seq<Seq<Node>>, frontier: Seq<(usize, usize)>, c: (
    usize,
    usize,
))
    requires
        forall|k: int| 0 <= k < frontier.len() ==> inside(cells, #[trigger] frontier[k]),
    ensures
        forall|k: int|
            0 <= k < without(frontier, c).len() ==> inside(cells, #[trigger] without(frontier, c)[k]),
    decreases frontier.len(),
{
    if frontier.len() == 0 {
        lemma_filter_push(frontier, c, is_not(c));
        assert(frontier =~= Seq::empty());
    } else {
        let front = frontier.drop_last();
        let last = frontier.last();
        assert(frontier =~= front.push(last));
        lemma_filter_push(front, last, is_not(c));
        assert forall|k: int| 0 <= k < front.len() implies inside(cells, #[trigger] front[k]) by {
            assert(front[k] == frontier[k]);
        }
        lemma_without_inside(cells, front, c);
        assert(inside(cells, frontier[frontier.len() - 1]));
        assert forall|k: int| 0 <= k < without(frontier, c).len() implies inside(
            cells,
            #[trigger] without(frontier, c)[k],
        ) by {
            if k < without(front, c).len() {
                assert(without(frontier, c)[k] == without(front, c)[k]);
            }
        }
    }
}

/// Placing the start keeps start and target where the session says they
/// are, if the start does not go where the target is.
pub proof fn lemma_set_start_placed(v: PathfinderView, c: (usize, usize))
    requires
        v.wf(),
        placed(v.grid.cells, v.start, v.target),
        inside(v.grid.cells, c),
        at(v.grid.cells, c).state != State::Target,
    ensures
        v.set_start(c).wf(),
        placed(v.set_start(c).grid.cells, v.set_start(c).start, v.set_start(c).target),
        forall|d: (usize, usize)|
            inside(v.grid.cells, d) ==> {
                let a = at(v.grid.cells, d);
                let b = #[trigger] at(v.set_start(c).grid.cells, d);
                &&& b.parent_coords == a.parent_coords
                &&& inside(v.set_start(c).grid.cells, d)
                &&& b.state == if d == c {
                    State::Start
                } else if Some(d) == v.start {
                    State::Empty
                } else {
                    a.state
                }
            },
        v.set_start(c).grid.frontier == (match v.start {
            Some(old) => without(v.grid.frontier, old),
            None => v.grid.frontier,
        }).push(c),
{
    let g1 = match v.start {
        Some(old) => v.grid.deactivate(old),
        None => v.grid,
    };
    let g2 = match v.start {
        Some(old) => g1.with_state(old, State::Empty),
        None => g1,
    };
    match v.start {
        Some(old) => {
            let calm = Node { active: false, ..at(v.grid.cells, old) };
            lemma_with_cell(v.grid, old, calm);
            lemma_without_inside(v.grid.cells, v.grid.frontier, old);
            let shaped = v.grid.with_cell(old, calm);
            assert(g1.cells == shaped.cells);
            assert forall|k: int| 0 <= k < g1.frontier.len() implies inside(
                g1.cells,
                #[trigger] g1.frontier[k],
            ) by {
                assert(inside(v.grid.cells, g1.frontier[k]));
                assert(inside(shaped.cells, g1.frontier[k]));
            }
            assert(g1.wf());
            lemma_with_cell(g1, old, Node { state: State::Empty, ..at(g1.cells, old) });
        },
        None => {},
    }
    assert(g2.wf());
    assert(inside(g2.cells, c));
    let started = Node { state: State::Start, ..at(g2.cells, c) };
    lemma_with_cell(g2, c, started);
    let g3 = g2.with_state(c, State::Start);
    let lit = Node { active: true, ..at(g3.cells, c) };
    lemma_with_cell(g3, c, lit);
    let g4 = g3.activate(c);
    assert(g4.cells == g3.with_cell(c, lit).cells);
    assert(g4.frontier == g3.frontier.push(c));
    assert forall|k: int| 0 <= k < g4.frontier.len() implies inside(
        g4.cells,
        #[trigger] g4.frontier[k],
    ) by {
        if k < g3.frontier.len() {
            assert(inside(g3.cells, g3.frontier[k]));
            assert(inside(g3.with_cell(c, lit).cells, g3.frontier[k]));
        } else {
            assert(inside(g3.with_cell(c, lit).cells, c));
        }
    }
    assert(v.set_start(c).grid == g4);
    assert forall|d: (usize, usize)| inside(v.grid.cells, d) implies {
        let a = at(v.grid.cells, d);
        let b = #[trigger] at(g4.cells, d);
        &&& b.parent_coords == a.parent_coords
        &&& inside(g4.cells, d)
        &&& b.state == if d == c {
            State::Start
        } else if Some(d) == v.start {
            State::Empty
        } else {
            a.state
        }
    } by {
        assert(inside(g1.cells, d));
        assert(inside(g2.cells, d));
        assert(inside(g3.cells, d));
        assert(inside(g3.with_cell(c, lit).cells, d));
    }
    assert forall|d: (usize, usize)| inside(g4.cells, d) implies {
        &&& (#[trigger] at(g4.cells, d)).state == State::Start <==> Some(c) == Some(d)
        &&& at(g4.cells, d).state == State::Target <==> v.target == Some(d)
    } by {
        assert(inside(g3.with_cell(c, lit).cells, d));
        assert(inside(v.grid.cells, d));
    }
}

/// Placing the target keeps start and target where the session says they
/// are, if the target does not go where the start is.
pub proof fn lemma_set_target_placed(v: PathfinderView, c: (usize, usize))
    requires
        v.wf(),
        placed(v.grid.cells, v.start, v.target),
        inside(v.grid.cells, c),
        at(v.grid.cells, c).state != State::Start,
    ensures
        v.set_target(c).wf(),
        placed(v.set_target(c).grid.cells, v.set_target(c).start, v.set_target(c).target),
        v.set_target(c).grid.frontier == v.grid.frontier,
        forall|d: (usize, usize)|
            inside(v.grid.cells, d) ==> {
                let a = at(v.grid.cells, d);
                let b = #[trigger] at(v.set_target(c).grid.cells, d);
                &&& b.parent_coords == a.parent_coords
                &&& inside(v.set_target(c).grid.cells, d)
                &&& b.state == if d == c {
                    State::Target
                } else if Some(d) == v.target {
                    State::Empty
                } else {
                    a.state
                }
            },
{
    let g1 = match v.target {
        Some(old) => v.grid.with_state(old, State::Empty),
        None => v.grid,
    };
    match v.target {
        Some(old) => {
            lemma_with_cell(v.grid, old, Node { state: State::Empty, ..at(v.grid.cells, old) });
        },
        None => {},
    }
    assert(inside(g1.cells, c));
    lemma_with_cell(g1, c, Node { state: State::Target, ..at(g1.cells, c) });
    let g2 = g1.with_state(c, State::Target);
    assert(v.set_target(c).grid == g2);
    assert forall|d: (usize, usize)| inside(v.grid.cells, d) implies {
        let a = at(v.grid.cells, d);
        let b = #[trigger] at(g2.cells, d);
        &&& b.parent_coords == a.parent_coords
        &&& inside(g2.cells, d)
        &&& b.state == if d == c {
            State::Target
        } else if Some(d) == v.target {
            State::Empty
        } else {
            a.state
        }
    } by {
        assert(inside(g1.cells, d));
        assert(inside(g2.cells, d));
    }
    assert forall|d: (usize, usize)| inside(g2.cells, d) implies {
        &&& (#[trigger] at(g2.cells, d)).state == State::Start <==> v.start == Some(d)
        &&& at(g2.cells, d).state == State::Target <==> Some(c) == Some(d)
    } by {
        assert(inside(v.grid.cells, d));
    }
}

/// Putting a cell that is neither start nor target in a state that is
/// neither keeps start and target where the session says they are.
pub proof fn lemma_with_state_placed(v: PathfinderView, c: (usize, usize), state: State)
    requires
        v.wf(),
        placed(v.grid.cells, v.start, v.target),
        inside(v.grid.cells, c),
        at(v.grid.cells, c).state != State::Start,
        at(v.grid.cells, c).state != State::Target,
        state != State::Start,
        state != State::Target,
    ensures
        ({
            let after = PathfinderView { grid: v.grid.with_state(c, state), ..v };
            &&& after.wf()
            &&& placed(after.grid.cells, after.start, after.target)
            &&& after.grid.frontier == v.grid.frontier
            &&& forall|d: (usize, usize)|
                inside(v.grid.cells, d) ==> {
                    let a = at(v.grid.cells, d);
                    let b = #[trigger] at(after.grid.cells, d);
                    &&& b.parent_coords == a.parent_coords
                    &&& inside(after.grid.cells, d)
                    &&& b.state == if d == c {
                        state
                    } else {
                        a.state
                    }
                }
        }),
{
    let g = v.grid.with_state(c, state);
    lemma_with_cell(v.grid, c, Node { state: state, ..at(v.grid.cells, c) });
    assert forall|d: (usize, usize)| inside(g.cells, d) implies {
        &&& (#[trigger] at(g.cells, d)).state == State::Start <==> v.start == Some(d)
        &&& at(g.cells, d).state == State::Target <==> v.target == Some(d)
    } by {
        assert(inside(v.grid.cells, d));
    }
}

/// What one edit of the grid does, at whatever stage. Start and target
/// stay where the session says they are, and neither is lost. No cell
/// becomes a visited or a path cell, and no parent changes. On a grid that
/// no search has touched, with the start placed, the edit leaves a grid
/// that no search has touched.
pub proof fn lemma_change_cell(v: PathfinderView, c: (usize, usize))
    requires
        v.wf(),
        placed(v.grid.cells, v.start, v.target),
        inside(v.grid.cells, c),
    ensures
        ({
            let w = v.change_cell(c).0;
            &&& w.wf()
            &&& placed(w.grid.cells, w.start, w.target)
            &&& w.stage == v.stage
            &&& v.start is Some ==> w.start is Some
            &&& v.target is Some ==> w.target is Some
            &&& !v.change_cell(c).1 ==> w.grid == v.grid && w.start == v.start && w.target
                == v.target
            &&& unsearched(v.grid, v.start) && v.start is Some ==> unsearched(w.grid, w.start)
        }),
{
    let w = v.change_cell(c).0;
    let state = at(v.grid.cells, c).state;
    let clean = unsearched(v.grid, v.start) && v.start is Some;
    match state {
        State::Target | State::Start => {},
        State::Wall => match v.currently_moving {
            None => {
                lemma_with_state_placed(v, c, State::Empty);
                if clean {
                    lemma_keeps_unsearched(v.grid, w.grid, v.start);
                }
            },
            Some(State::Empty) => {
                lemma_with_state_placed(v, c, State::Empty);
                if clean {
                    lemma_keeps_unsearched(v.grid, w.grid, v.start);
                }
            },
            Some(_) => {},
        },
        _ => match v.currently_moving {
            None => {
                lemma_with_state_placed(v, c, State::Wall);
                if clean {
                    lemma_keeps_unsearched(v.grid, w.grid, v.start);
                }
            },
            Some(State::Start) => {
                lemma_set_start_placed(v, c);
                if clean {
                    let old = v.start->0;
                    lemma_filter_push(Seq::empty(), old, is_not(old));
                    assert(v.grid.frontier =~= Seq::empty().push(old));
                    assert(w.grid.frontier =~= seq![c]);
                    lemma_keeps_unsearched(v.grid, w.grid, w.start);
                }
            },
            Some(State::Target) => {
                lemma_set_target_placed(v, c);
                if clean {
                    lemma_keeps_unsearched(v.grid, w.grid, v.start);
                }
            },
            Some(State::Wall) => {
                lemma_with_state_placed(v, c, State::Wall);
                if clean {
                    lemma_keeps_unsearched(v.grid, w.grid, v.start);
                }
            },
            Some(_) => {
                lemma_with_state_placed(v, c, State::Empty);
                if clean {
                    lemma_keeps_unsearched(v.grid, w.grid, v.start);
                }
            },
        },
    }
}

/// A grid that no search has touched stays so when its cells change
/// neither into visited nor into path cells, keep their parents, and the
/// frontier is the start.
pub proof fn lemma_keeps_unsearched(a: GridView, b: GridView, start: Option<(usize, usize)>)
    requires
        forall|d: (usize, usize)|
            inside(a.cells, d) ==> (#[trigger] at(a.cells, d)).state != State::Visited && at(
                a.cells,
                d,
            ).state != State::Path && at(a.cells, d).parent_coords is None,
        forall|d: (usize, usize)|
            inside(a.cells, d) ==> {
                let x = at(a.cells, d);
                let y = #[trigger] at(b.cells, d);
                &&& y.parent_coords == x.parent_coords
                &&& inside(b.cells, d)
                &&& y.state == x.state || (y.state != State::Visited && y.state != State::Path)
            },
        forall|d: (usize, usize)| inside(b.cells, d) ==> inside(a.cells, d),
        b.frontier == match start {
            Some(c) => seq![c],
            None => Seq::empty(),
        },
    ensures
        unsearched(b, start),
{
    assert forall|d: (usize, usize)| inside(b.cells, d) implies (#[trigger] at(b.cells, d)).state
        != State::Visited && at(b.cells, d).state != State::Path && at(
        b.cells,
        d,
    ).parent_coords is None by {
        assert(inside(a.cells, d));
    }
}

/// On a grid that no search has touched, only visited and path cells have a
/// parent, for there are neither.
pub proof fn lemma_unsearched_provenance(g: GridView, start: Option<(usize, usize)>)
    requires
        g.wf(),
        unsearched(g, start),
    ensures
        provenance_kept(g.cells),
{
    assert forall|i: int, j: int| 0 <= i < g.cells.len() && 0 <= j < g.cells[i].len() implies ((
    #[trigger] g.cells[i][j]).parent_coords is Some <==> g.cells[i][j].state == State::Visited
        || g.cells[i][j].state == State::Path) by {
        let d = (i as usize, j as usize);
        assert(inside(g.cells, d));
        assert(at(g.cells, d) == g.cells[i][j]);
    }
}

/// The start cells of a grid, row after row, are cells of the grid in the
/// state of a start.
pub proof fn lemma_starts_inside(cells: Seq<Seq<Node>>, m: int)
    requires
        cells_wf(cells),
        0 <= m <= cells.len(),
    ensures
        forall|k: int|
            0 <= k < starts(cells, m).len() ==> inside(cells, #[trigger] starts(cells, m)[k]),
    decreases m,
{
    if m > 0 {
        lemma_starts_inside(cells, m - 1);
        let earlier = starts(cells, m - 1);
        let row = row_starts(cells[m - 1], (m - 1) as usize, cells[m - 1].len() as int);
        assert(cells[m - 1].len() == cells[0].len());
        lemma_row_starts(cells[m - 1], (m - 1) as usize, cells[m - 1].len() as int);
        assert forall|k: int| 0 <= k < starts(cells, m).len() implies inside(
            cells,
            #[trigger] starts(cells, m)[k],
        ) by {
            if k < earlier.len() {
                assert(starts(cells, m)[k] == earlier[k]);
            } else {
                assert(starts(cells, m)[k] == row[k - earlier.len()]);
            }
        }
    }
}

/// A cleared grid is well formed. Each of its cells is the cleared cell of
/// the grid, so start and target are where they were, no cell is visited or
/// on a path, and no cell has a parent.
pub proof fn lemma_cleared(g: GridView)
    requires
        g.wf(),
    ensures
        g.cleared().wf(),
        provenance_kept(g.cleared().cells),
        forall|d: (usize, usize)|
            inside(g.cells, d) ==> #[trigger] at(g.cleared().cells, d) == cleared_node(
                at(g.cells, d),
            ),
        forall|d: (usize, usize)|
            #![trigger inside(g.cleared().cells, d)]
            inside(g.cleared().cells, d) == inside(g.cells, d),
{
    let cleared = g.cleared();
    lemma_starts_inside(g.cells, g.cells.len() as int);
    assert forall|k: int| 0 <= k < cleared.frontier.len() implies inside(
        cleared.cells,
        #[trigger] cleared.frontier[k],
    ) by {
        assert(inside(g.cells, cleared.frontier[k]));
    }
}

/// Start and target are where the session says they are on a grid that has
/// advanced, if they were before.
pub proof fn lemma_advanced_placed(
    a: Seq<Seq<Node>>,
    b: Seq<Seq<Node>>,
    start: Option<(usize, usize)>,
    target: Option<(usize, usize)>,
)
    requires
        grid_advanced(a, b),
        placed(a, start, target),
    ensures
        placed(b, start, target),
{
    assert forall|c: (usize, usize)| inside(b, c) implies {
        &&& (#[trigger] at(b, c)).state == State::Start <==> start == Some(c)
        &&& at(b, c).state == State::Target <==> target == Some(c)
    } by {
        assert(inside(a, c));
        lemma_advanced_at(a, b, c);
    }
}

/// Clearing the grid and searching it anew leaves start and target where
/// the session says they are, and leaves a parent to visited and path
/// cells only.
pub proof fn lemma_update_solution(v: PathfinderView)
    requires
        v.wf(),
        placed(v.grid.cells, v.start, v.target),
    ensures
        v.update_solution().wf(),
        placed(v.update_solution().grid.cells, v.start, v.target),
        provenance_kept(v.update_solution().grid.cells),
{
    let cleared = v.grid.cleared();
    lemma_cleared(v.grid);
    assert forall|c: (usize, usize)| inside(cleared.cells, c) implies {
        &&& (#[trigger] at(cleared.cells, c)).state == State::Start <==> v.start == Some(c)
        &&& at(cleared.cells, c).state == State::Target <==> v.target == Some(c)
    } by {
        assert(inside(v.grid.cells, c));
    }
    lemma_run(cleared);
    lemma_advanced_placed(cleared.cells, cleared.run().cells, v.start, v.target);
    lemma_advanced_keeps_provenance(cleared.cells, cleared.run().cells);
    match v.start {
        Some(c) => {
            assert(inside(cleared.cells, c));
            lemma_advanced_at(cleared.cells, cleared.run().cells, c);
        },
        None => {},
    }
    match v.target {
        Some(c) => {
            assert(inside(cleared.cells, c));
            lemma_advanced_at(cleared.cells, cleared.run().cells, c);
        },
        None => {},
    }
}

/// What the pointer does while the button is down leaves the session in
/// order.
pub proof fn lemma_activate_steady(v: PathfinderView, c: (usize, usize))
    requires
        v.steady(),
        inside(v.grid.cells, c),
    ensures
        v.activate(c).0.steady(),
{
    let w = v.activate(c).0;
    match v.stage {
        Stage::Init => {
            assert(at(v.grid.cells, c).state != State::Target);
            lemma_set_start_placed(v, c);
            match v.start {
                Some(old) => {
                    lemma_filter_push(Seq::empty(), old, is_not(old));
                    assert(v.grid.frontier =~= Seq::empty().push(old));
                },
                None => {},
            }
            assert(w.grid.frontier =~= seq![c]);
            lemma_keeps_unsearched(v.grid, w.grid, w.start);
            lemma_unsearched_provenance(w.grid, w.start);
        },
        Stage::StartSet => {
            if at(v.grid.cells, c).state != State::Start {
                lemma_set_target_placed(v, c);
                lemma_keeps_unsearched(v.grid, w.grid, w.start);
                lemma_unsearched_provenance(w.grid, w.start);
            }
        },
        Stage::TargetSet => {
            lemma_change_cell(v, c);
            lemma_unsearched_provenance(w.grid, w.start);
        },
        Stage::Started => {},
        Stage::Paused => {},
        Stage::Done => {
            lemma_change_cell(v, c);
            let changed = v.change_cell(c).0;
            if v.change_cell(c).1 {
                lemma_update_solution(changed);
            } else {
                assert(changed.grid == v.grid);
            }
        },
    }
}

/// A session that has just begun is in order.
pub proof fn law_session_begins_steady(window_height: usize, window_width: usize)
    requires
        window_fits(window_height, window_width),
    ensures
        PathfinderView::created(window_height, window_width).steady(),
{
    let (height, width) = dimensions_of(window_height, window_width);
    law_fresh_grid(height as nat, width as nat);
}

/// A session that is in order stays in order, whatever message it takes.
/// So at every moment there is at most one start and at most one target,
/// each where the session says it is; the start is placed from the second
/// stage on and the target from the third; and a cell has a parent if, and
/// only if, it is a visited or a path cell.
pub proof fn law_session_stays_steady(
    v: PathfinderView,
    msg: Msg,
    window_height: usize,
    window_width: usize,
)
    requires
        v.steady(),
        v.accepts(msg, window_height, window_width),
    ensures
        v.update(msg, window_height, window_width).0.steady(),
{
    let w = v.update(msg, window_height, window_width).0;
    match msg {
        Msg::NextTick => {
            if v.stage == Stage::Started {
                lemma_step(v.grid);
                lemma_advanced_placed(v.grid.cells, v.grid.step().cells, v.start, v.target);
                lemma_advanced_keeps_provenance(v.grid.cells, v.grid.step().cells);
                lemma_advanced_at(v.grid.cells, v.grid.step().cells, v.start->0);
                lemma_advanced_at(v.grid.cells, v.grid.step().cells, v.target->0);
            }
        },
        Msg::Reset => {
            let (height, width) = dimensions_of(window_height, window_width);
            law_fresh_grid(height as nat, width as nat);
        },
        Msg::MouseHover(i, j) => {
            if v.down {
                lemma_activate_steady(v, (i, j));
            }
        },
        Msg::MouseDown(i, j) => {
            let pressed = PathfinderView { down: true, ..v };
            lemma_activate_steady(pressed, (i, j));
        },
        Msg::MouseUp => {},
        Msg::Start => {},
    }
}

/// Before the first search, once the start is placed, the grid of a session
/// that is in order is ready for a search from the start.
pub proof fn law_session_is_searchable(v: PathfinderView)
    requires
        v.steady(),
        before_search(v.stage),
        v.start is Some,
    ensures
        searchable(v.grid, v.start->0),
{
    let s = v.start->0;
    assert(at(v.grid.cells, s).state == State::Start);
}

/// In a row with no start but perhaps one at column `y`, the start cells
/// among the first `n` cells are that one, if it is among them.
pub proof fn lemma_row_starts_one(row: Seq<Node>, x: usize, y: int, n: int)
    requires
        n <= row.len() <= usize::MAX,
        forall|j: int| 0 <= j < row.len() && j != y ==> (#[trigger] row[j]).state != State::Start,
        0 <= y < row.len() ==> row[y].state == State::Start,
    ensures
        row_starts(row, x, n) == if 0 <= y < n {
            seq![(x, y as usize)]
        } else {
            Seq::<(usize, usize)>::empty()
        },
    decreases n,
{
    if n > 0 {
        lemma_row_starts_one(row, x, y, n - 1);
        if y == n - 1 {
            assert(Seq::<(usize, usize)>::empty().push((x, y as usize)) =~= seq![(x, y as usize)]);
        } else {
            assert(row[n - 1].state != State::Start);
        }
    }
}

/// On a grid whose only start cell is at `c`, the start cells of the first
/// `m` rows are that one, if it is in one of them.
pub proof fn lemma_starts_one(cells: Seq<Seq<Node>>, c: (usize, usize), m: int)
    requires
        cells_wf(cells),
        0 <= m <= cells.len(),
        inside(cells, c),
        forall|d: (usize, usize)|
            inside(cells, d) ==> ((#[trigger] at(cells, d)).state == State::Start <==> d == c),
    ensures
        starts(cells, m) == if c.0 < m {
            seq![c]
        } else {
            Seq::<(usize, usize)>::empty()
        },
    decreases m,
{
    if m > 0 {
        lemma_starts_one(cells, c, m - 1);
        let row = cells[m - 1];
        let x = (m - 1) as usize;
        assert(row.len() == cells[0].len());
        let y: int = if c.0 == m - 1 {
            c.1 as int
        } else {
            -1
        };
        assert forall|j: int| 0 <= j < row.len() && j != y implies (#[trigger] row[j]).state
            != State::Start by {
            let d = (x, j as usize);
            assert(inside(cells, d));
            assert(at(cells, d) == row[j]);
        }
        if 0 <= y < row.len() {
            assert(at(cells, c) == row[y]);
        }
        lemma_row_starts_one(row, x, y, row.len() as int);
        let found = row_starts(row, x, row.len() as int);
        let earlier = starts(cells, m - 1);
        assert(starts(cells, m) == earlier + found);
        if c.0 == m - 1 {
            assert(earlier + found =~= seq![c]);
        } else {
            assert(earlier + found =~= earlier);
        }
    }
}

/// A grid on which the start is where the session says it is, and nowhere
/// else, is ready for a search from the start once it is cleared.
pub proof fn lemma_cleared_searchable(v: PathfinderView)
    requires
        v.wf(),
        placed(v.grid.cells, v.start, v.target),
        v.start is Some,
    ensures
        searchable(v.grid.cleared(), v.start->0),
{
    let s = v.start->0;
    let cleared = v.grid.cleared();
    lemma_cleared(v.grid);
    assert forall|d: (usize, usize)| inside(v.grid.cells, d) implies ((#[trigger] at(
        v.grid.cells,
        d,
    )).state == State::Start <==> d == s) by {}
    lemma_starts_one(v.grid.cells, s, v.grid.cells.len() as int);
    assert(inside(cleared.cells, s));
    assert(at(cleared.cells, s) == cleared_node(at(v.grid.cells, s)));
    assert forall|c: (usize, usize)| inside(cleared.cells, c) implies (#[trigger] at(
        cleared.cells,
        c,
    )).state != State::Visited && at(cleared.cells, c).state != State::Path by {
        assert(inside(v.grid.cells, c));
        assert(at(cleared.cells, c) == cleared_node(at(v.grid.cells, c)));
    }
}

/// A new search after an edit marks a shortest path. Where the start is
/// placed, clearing the grid and searching it anew is a search on a grid
/// that is ready for one, so what holds of every such search holds of it:
/// see [`law_search_finds_shortest_path`]. What comes back is the way that
/// the search has marked, if some cell that can be reached sees a target.
pub proof fn law_new_search_finds_shortest_path(v: PathfinderView) -> (found: Option<
    Seq<(usize, usize)>,
>)
    requires
        v.wf(),
        placed(v.grid.cells, v.start, v.target),
        v.start is Some,
    ensures
        ({
            let origin = v.grid.cleared().cells;
            let after = v.update_solution().grid;
            let s = v.start->0;
            match found {
                Some(path) => {
                    &&& is_marked_way(origin, after.cells, s, path)
                    &&& count(after.cells, State::Path) == path.len()
                    &&& cold_before(origin, s, path.len() as int)
                },
                None => {
                    &&& count(after.cells, State::Path) == 0
                    &&& after.frontier.len() == 0
                    &&& forall|p: (usize, usize), m: int| #[trigger]
                        reach(origin, s, p, m) ==> !sees_target(origin, p)
                },
            }
        }),
{
    lemma_cleared_searchable(v);
    law_search_finds_shortest_path(v.grid.cleared(), v.start->0)
}

} // verus!
