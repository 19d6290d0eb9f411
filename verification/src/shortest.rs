//! The search finds a shortest path, whatever walls there are.
//!
//! The cells that can be reached from the start lie around it in rings: a
//! cell is in ring `n` if it can be reached in `n` steps over empty cells,
//! and in no fewer. The search takes the rings one by one. After `n`
//! generations the cells of the rings up to `n` are visited, each with a
//! parent in the ring before its own, and ring `n` is the frontier. The
//! first ring from which a target can be seen ends the search, and the path
//! that is marked then has one cell in each ring.
use vstd::prelude::*;
use crate::discovery::discovered_by;
use crate::discovery::frontier_sees_target;
use crate::discovery::lemma_scanned_at;
use crate::discovery::lemma_sees_same_targets;
use crate::discovery::lemma_sweep_discovers;
use crate::discovery::lemma_sweep_finder;
use crate::discovery::lemma_sweep_next;
use crate::discovery::occurs;
use crate::discovery::same_targets;
use crate::discovery::sees_target;
use crate::matrix::Solve;
use crate::model::at;
use crate::model::cells_wf;
use crate::model::count;
use crate::model::inside;
use crate::model::lemma_adjacent;
use crate::model::lemma_adjacent_complete;
use crate::model::lemma_count_none;
use crate::model::lemma_count_put;
use crate::model::lemma_count_same;
use crate::model::lemma_put_wf;
use crate::model::manhattan;
use crate::model::neighbour_coords;
use crate::model::put;
use crate::model::trace_path;
use crate::model::GridView;
use crate::node::Node;
use crate::node::State;
use crate::progress::lemma_advanced_at;
use crate::progress::lemma_step;
use crate::progress::lemma_sweep;
use crate::progress::lemma_trace_path;
use crate::progress::same_shape;
use crate::progress::scanned;

verus! {

/// A step from `p` to `c` is one to a neighbour that is an empty cell of
/// the grid.
pub open spec fn is_step(cells: Seq<Seq<Node>>, p: (usize, usize), c: (usize, usize)) -> bool {
    inside(cells, c) && at(cells, c).state == State::Empty && manhattan(p, c) == 1
}

/// `walk` begins at `s` and goes on step by step.
pub open spec fn is_walk(cells: Seq<Seq<Node>>, s: (usize, usize), walk: Seq<(usize, usize)>) -> bool {
    &&& walk.len() >= 1
    &&& walk[0] == s
    &&& forall|i: int| 1 <= i < walk.len() ==> is_step(cells, walk[i - 1], #[trigger] walk[i])
}

/// `c` can be reached from `s` in exactly `n` steps.
pub open spec fn reach(cells: Seq<Seq<Node>>, s: (usize, usize), c: (usize, usize), n: int) -> bool {
    exists|walk: Seq<(usize, usize)>|
        #[trigger] is_walk(cells, s, walk) && walk.len() == n + 1 && walk.last() == c
}

/// `c` can be reached from `s` in at most `n` steps.
pub open spec fn near(cells: Seq<Seq<Node>>, s: (usize, usize), c: (usize, usize), n: int) -> bool {
    exists|m: int| 0 <= m <= n && #[trigger] reach(cells, s, c, m)
}

/// `c` is in ring `n` around `s`: it can be reached in `n` steps and in no
/// fewer.
pub open spec fn ring(cells: Seq<Seq<Node>>, s: (usize, usize), c: (usize, usize), n: int) -> bool {
    reach(cells, s, c, n) && !near(cells, s, c, n - 1)
}

/// The start is reached in no step.
pub proof fn lemma_reach_start(cells: Seq<Seq<Node>>, s: (usize, usize))
    ensures
        reach(cells, s, s, 0),
        ring(cells, s, s, 0),
{
    let walk = seq![s];
    assert(is_walk(cells, s, walk));
    assert(walk.last() == s);
    if near(cells, s, s, -1) {
        let m = choose|m: int| 0 <= m <= -1 && #[trigger] reach(cells, s, s, m);
    }
}

/// One more step from a cell that can be reached.
pub proof fn lemma_reach_step(
    cells: Seq<Seq<Node>>,
    s: (usize, usize),
    p: (usize, usize),
    c: (usize, usize),
    n: int,
)
    requires
        reach(cells, s, p, n),
        is_step(cells, p, c),
    ensures
        reach(cells, s, c, n + 1),
{
    let walk = choose|walk: Seq<(usize, usize)>|
        #[trigger] is_walk(cells, s, walk) && walk.len() == n + 1 && walk.last() == p;
    let longer = walk.push(c);
    assert forall|i: int| 1 <= i < longer.len() implies is_step(
        cells,
        longer[i - 1],
        #[trigger] longer[i],
    ) by {
        if i < walk.len() {
            assert(is_step(cells, walk[i - 1], walk[i]));
        }
    }
    assert(is_walk(cells, s, longer));
    assert(longer.last() == c);
}

/// A cell that can be reached lies in the grid, and is empty unless it is
/// the start itself, reached in no step.
pub proof fn lemma_reach_cell(cells: Seq<Seq<Node>>, s: (usize, usize), c: (usize, usize), n: int)
    requires
        inside(cells, s),
        reach(cells, s, c, n),
    ensures
        n >= 0,
        inside(cells, c),
        n == 0 ==> c == s,
        n > 0 ==> at(cells, c).state == State::Empty,
{
    let walk = choose|walk: Seq<(usize, usize)>|
        #[trigger] is_walk(cells, s, walk) && walk.len() == n + 1 && walk.last() == c;
    if n > 0 {
        assert(is_step(cells, walk[n - 1], walk[n]));
    }
}

/// The cell before the last on a way to a cell that is reached in one or
/// more steps: it is reached in one step less, and the last step goes from
/// it.
pub proof fn lemma_reach_back(cells: Seq<Seq<Node>>, s: (usize, usize), c: (usize, usize), n: int) -> (p:
    (usize, usize))
    requires
        inside(cells, s),
        reach(cells, s, c, n),
        n >= 1,
    ensures
        reach(cells, s, p, n - 1),
        inside(cells, p),
        is_step(cells, p, c),
{
    let walk = choose|walk: Seq<(usize, usize)>|
        #[trigger] is_walk(cells, s, walk) && walk.len() == n + 1 && walk.last() == c;
    let shorter = walk.drop_last();
    assert forall|i: int| 1 <= i < shorter.len() implies is_step(
        cells,
        shorter[i - 1],
        #[trigger] shorter[i],
    ) by {
        assert(is_step(cells, walk[i - 1], walk[i]));
    }
    assert(is_walk(cells, s, shorter));
    let p = walk[n - 1];
    assert(shorter.last() == p);
    assert(is_step(cells, walk[n - 1], walk[n]));
    lemma_reach_cell(cells, s, p, n - 1);
    p
}

/// A cell is in one ring at most.
pub proof fn lemma_ring_unique(
    cells: Seq<Seq<Node>>,
    s: (usize, usize),
    c: (usize, usize),
    m: int,
    n: int,
)
    requires
        ring(cells, s, c, m),
        ring(cells, s, c, n),
    ensures
        m == n,
{
    if m < n {
        assert(reach(cells, s, c, m));
        assert(near(cells, s, c, n - 1));
    }
    if n < m {
        assert(reach(cells, s, c, n));
        assert(near(cells, s, c, m - 1));
    }
}

/// The cell at `c` is visited, and its parent is a neighbour in the ring
/// before its own.
pub open spec fn led(
    origin: Seq<Seq<Node>>,
    cells: Seq<Seq<Node>>,
    s: (usize, usize),
    c: (usize, usize),
) -> bool {
    &&& at(cells, c).state == State::Visited
    &&& at(cells, c).parent_coords matches Some(p) && inside(cells, p) && manhattan(p, c) == 1
        && exists|m: int| #[trigger] ring(origin, s, c, m) && ring(origin, s, p, m - 1)
}

/// The cell at `c` as the search leaves it after `n` generations on the
/// grid `origin`. A cell that was not empty is in the state it was in. An
/// empty cell of a ring up to `n` has been led to. Any other cell is still
/// empty.
pub open spec fn wave_cell(
    origin: Seq<Seq<Node>>,
    cells: Seq<Seq<Node>>,
    s: (usize, usize),
    c: (usize, usize),
    n: int,
) -> bool {
    if at(origin, c).state != State::Empty {
        at(cells, c).state == at(origin, c).state
    } else if near(origin, s, c, n) {
        led(origin, cells, s, c)
    } else {
        at(cells, c).state == State::Empty
    }
}

/// The cell at `c` while generation `n + 1` is under way: as after `n`
/// generations, but a cell of ring `n + 1` may have been led to already.
pub open spec fn scan_cell(
    origin: Seq<Seq<Node>>,
    cells: Seq<Seq<Node>>,
    s: (usize, usize),
    c: (usize, usize),
    n: int,
) -> bool {
    if at(origin, c).state != State::Empty {
        at(cells, c).state == at(origin, c).state
    } else if near(origin, s, c, n) {
        led(origin, cells, s, c)
    } else {
        at(cells, c).state == State::Empty || (ring(origin, s, c, n + 1) && led(origin, cells, s, c))
    }
}

/// A target can be seen from ring `n`.
pub open spec fn hot(origin: Seq<Seq<Node>>, s: (usize, usize), n: int) -> bool {
    exists|p: (usize, usize)| #[trigger] ring(origin, s, p, n) && sees_target(origin, p)
}

/// The grid is ready for a search from `s`: `s` is the frontier and is not
/// an empty cell, and no cell is visited or on a path.
pub open spec fn searchable(g: GridView, s: (usize, usize)) -> bool {
    &&& g.wf()
    &&& inside(g.cells, s)
    &&& g.frontier == seq![s]
    &&& at(g.cells, s).state != State::Empty
    &&& forall|c: (usize, usize)|
        inside(g.cells, c) ==> (#[trigger] at(g.cells, c)).state != State::Visited && at(
            g.cells,
            c,
        ).state != State::Path
}

/// The grid `g` after `n` generations of a search from `s` on the grid
/// `origin`, none of which has reached a target.
pub open spec fn wave(g: GridView, origin: Seq<Seq<Node>>, s: (usize, usize), n: int) -> bool {
    &&& cells_wf(origin)
    &&& g.wf()
    &&& same_shape(origin, g.cells)
    &&& inside(origin, s)
    &&& n >= 0
    &&& at(origin, s).state != State::Empty
    &&& forall|c: (usize, usize)|
        inside(origin, c) ==> (#[trigger] at(origin, c)).state != State::Visited && at(
            origin,
            c,
        ).state != State::Path
    &&& forall|c: (usize, usize)| inside(origin, c) ==> #[trigger] wave_cell(origin, g.cells, s, c, n)
    &&& forall|k: int| 0 <= k < g.frontier.len() ==> ring(origin, s, #[trigger] g.frontier[k], n)
    &&& forall|c: (usize, usize)|
        inside(origin, c) && ring(origin, s, c, n) ==> #[trigger] occurs(g.frontier, 0, c)
    &&& forall|p: (usize, usize), m: int|
        0 <= m < n && #[trigger] reach(origin, s, p, m) ==> !sees_target(origin, p)
    &&& count(g.cells, State::Path) == 0
}

/// After any number of generations the targets are where they were.
pub proof fn lemma_wave_targets(g: GridView, origin: Seq<Seq<Node>>, s: (usize, usize), n: int)
    requires
        wave(g, origin, s, n),
    ensures
        same_targets(origin, g.cells),
        origin[0].len() == g.cells[0].len(),
        forall|c: (usize, usize)| #![trigger inside(g.cells, c)] inside(g.cells, c) == inside(origin, c),
{
    assert forall|i: int, j: int| 0 <= i < origin.len() && 0 <= j < origin[i].len() implies ((
    #[trigger] origin[i][j]).state == State::Target) == (g.cells[i][j].state == State::Target) by {
        let c = (i as usize, j as usize);
        assert(origin[i].len() == origin[0].len());
        assert(inside(origin, c));
        assert(wave_cell(origin, g.cells, s, c, n));
        assert(at(origin, c) == origin[i][j]);
        assert(at(g.cells, c) == g.cells[i][j]);
    }
    assert forall|c: (usize, usize)| #![trigger inside(g.cells, c)] inside(g.cells, c) == inside(
        origin,
        c,
    ) by {
        if c.0 < origin.len() {
            assert(origin[c.0 as int].len() == g.cells[c.0 as int].len());
        }
    }
}

/// The frontier sees a target if, and only if, a target can be seen from
/// the ring that the search has come to.
pub proof fn lemma_wave_hot(g: GridView, origin: Seq<Seq<Node>>, s: (usize, usize), n: int)
    requires
        wave(g, origin, s, n),
    ensures
        frontier_sees_target(g.cells, g.frontier, 0) <==> hot(origin, s, n),
{
    lemma_wave_targets(g, origin, s, n);
    if frontier_sees_target(g.cells, g.frontier, 0) {
        let m = choose|m: int|
            0 <= m < g.frontier.len() && sees_target(g.cells, #[trigger] g.frontier[m]);
        let f = g.frontier[m];
        assert(inside(g.cells, f));
        lemma_sees_same_targets(origin, g.cells, f);
        assert(ring(origin, s, f, n));
    }
    if hot(origin, s, n) {
        let p = choose|p: (usize, usize)| #[trigger] ring(origin, s, p, n) && sees_target(origin, p);
        lemma_reach_cell(origin, s, p, n);
        assert(occurs(g.frontier, 0, p));
        let m = choose|m: int| 0 <= m < g.frontier.len() && (#[trigger] g.frontier[m]) == p;
        lemma_sees_same_targets(origin, g.cells, p);
        assert(sees_target(g.cells, g.frontier[m]));
    }
}

/// What a generation leaves behind, whether it reaches a target or not:
/// every cell is as it was after the generation before, but for cells of
/// the next ring, which may have been led to. No path is marked yet.
pub proof fn lemma_wave_scan(g: GridView, origin: Seq<Seq<Node>>, s: (usize, usize), n: int)
    requires
        wave(g, origin, s, n),
    ensures
        cells_wf(g.sweep().cells),
        same_shape(origin, g.sweep().cells),
        forall|c: (usize, usize)|
            inside(origin, c) ==> #[trigger] scan_cell(origin, g.sweep().cells, s, c, n),
        count(g.sweep().cells, State::Path) == 0,
{
    let empty = Seq::<(usize, usize)>::empty();
    let sw = g.sweep();
    let h = g.cells.len() as int;
    let w = g.cells[0].len() as int;
    lemma_wave_targets(g, origin, s, n);
    lemma_sweep(g.cells, g.frontier, 0, empty);
    lemma_sweep_discovers(g.cells, g.frontier, 0, empty);
    assert forall|i: int, j: int| 0 <= i < g.cells.len() && 0 <= j < g.cells[i].len() implies ((
    #[trigger] g.cells[i][j]).state == State::Path) == (sw.cells[i][j].state == State::Path) by {
        assert(scanned(g.cells[i][j], sw.cells[i][j]));
    }
    lemma_count_same(g.cells, sw.cells, State::Path);
    assert forall|c: (usize, usize)| inside(origin, c) implies #[trigger] scan_cell(
        origin,
        sw.cells,
        s,
        c,
        n,
    ) by {
        assert(wave_cell(origin, g.cells, s, c, n));
        assert(inside(g.cells, c));
        lemma_scanned_at(g.cells, sw.cells, c);
        if at(origin, c).state != State::Empty {
        } else if near(origin, s, c, n) {
            let p = at(g.cells, c).parent_coords->0;
            lemma_scanned_at(g.cells, sw.cells, p);
        } else if at(sw.cells, c).state != State::Empty {
            assert(discovered_by(g.cells, sw.cells, g.frontier, 0, c));
            let m = choose|m: int|
                0 <= m < g.frontier.len() && at(sw.cells, c).parent_coords == Some(
                    #[trigger] g.frontier[m],
                ) && occurs(neighbour_coords(g.cells, g.frontier[m]), 0, c);
            let f = g.frontier[m];
            assert(inside(g.cells, f));
            assert(ring(origin, s, f, n));
            lemma_adjacent(h, w, f);
            let k = choose|k: int|
                0 <= k < neighbour_coords(g.cells, f).len() && (#[trigger] neighbour_coords(
                    g.cells,
                    f,
                )[k]) == c;
            assert(manhattan(f, neighbour_coords(g.cells, f)[k]) == 1);
            lemma_scanned_at(g.cells, sw.cells, f);
            lemma_reach_step(origin, s, f, c, n);
            assert(ring(origin, s, c, n + 1));
            assert(ring(origin, s, f, (n + 1) - 1));
        }
    }
}

/// The `n` cells from `c` back, from parent to parent, as far as they
/// go.
pub open spec fn trail(cells: Seq<Seq<Node>>, c: (usize, usize), n: int) -> Seq<(usize, usize)>
    decreases n,
{
    if n <= 0 || !inside(cells, c) {
        Seq::empty()
    } else {
        match at(cells, c).parent_coords {
            Some(p) => seq![c] + trail(cells, p, n - 1),
            None => seq![c],
        }
    }
}

/// The trail is the same on two grids with the same parents.
pub proof fn lemma_trail_same(a: Seq<Seq<Node>>, b: Seq<Seq<Node>>, c: (usize, usize), n: int)
    requires
        same_shape(a, b),
        forall|q: (usize, usize)|
            inside(a, q) ==> (#[trigger] at(a, q)).parent_coords == at(b, q).parent_coords,
    ensures
        trail(a, c, n) == trail(b, c, n),
    decreases n,
{
    if c.0 < a.len() {
        assert(a[c.0 as int].len() == b[c.0 as int].len());
    }
    assert(inside(a, c) == inside(b, c));
    if n > 0 && inside(a, c) {
        assert(at(a, c).parent_coords == at(b, c).parent_coords);
        match at(a, c).parent_coords {
            Some(p) => {
                lemma_trail_same(a, b, p, n - 1);
            },
            None => {},
        }
    }
}

/// Marking the path from a cell of ring `n`, on a grid where every cell of
/// the rings up to `n` has been led to, marks the `n` cells of the trail
/// from it, one in each ring, and leaves their parents as they are.
pub proof fn lemma_trace_ring(
    cells: Seq<Seq<Node>>,
    origin: Seq<Seq<Node>>,
    s: (usize, usize),
    c: (usize, usize),
    n: int,
)
    requires
        cells_wf(cells),
        same_shape(origin, cells),
        inside(origin, s),
        ring(origin, s, c, n),
        at(cells, s).state != State::Visited,
        forall|q: (usize, usize)|
            inside(origin, q) && at(origin, q).state == State::Empty && near(origin, s, q, n)
                ==> #[trigger] led(origin, cells, s, q),
    ensures
        n >= 0,
        count(trace_path(cells, c), State::Path) == count(cells, State::Path) + n,
        trail(cells, c, n).len() == n,
        n > 0 ==> trail(cells, c, n)[0] == c,
        forall|i: int|
            0 <= i < n ==> {
                let d = #[trigger] trail(cells, c, n)[i];
                let parent = if i + 1 < n {
                    trail(cells, c, n)[i + 1]
                } else {
                    s
                };
                &&& inside(cells, d)
                &&& at(trace_path(cells, c), d).state == State::Path
                &&& ring(origin, s, d, n - i)
                &&& at(trace_path(cells, c), d).parent_coords == Some(parent)
                &&& manhattan(parent, d) == 1
            },
    decreases n,
{
    lemma_reach_cell(origin, s, c, n);
    assert(inside(cells, s)) by {
        assert(origin[s.0 as int].len() == cells[s.0 as int].len());
    }
    if n == 0 {
    } else {
        assert(inside(cells, c)) by {
            assert(origin[c.0 as int].len() == cells[c.0 as int].len());
        }
        assert(reach(origin, s, c, n));
        assert(near(origin, s, c, n));
        assert(led(origin, cells, s, c));
        let p = at(cells, c).parent_coords->0;
        let m = choose|m: int| #[trigger] ring(origin, s, c, m) && ring(origin, s, p, m - 1);
        lemma_ring_unique(origin, s, c, m, n);
        assert(ring(origin, s, p, n - 1));
        lemma_reach_start(origin, s);
        if c == s {
            lemma_ring_unique(origin, s, c, 0, n);
        }
        let node = at(cells, c).marked();
        let marked = put(cells, c, node);
        lemma_put_wf(cells, c, node);
        lemma_count_put(cells, c, node, State::Path);
        assert(same_shape(origin, marked));
        assert(at(marked, s) == at(cells, s));
        assert forall|q: (usize, usize)|
            inside(origin, q) && at(origin, q).state == State::Empty && near(origin, s, q, n - 1)
            implies #[trigger] led(origin, marked, s, q) by {
            let k = choose|k: int| 0 <= k <= n - 1 && #[trigger] reach(origin, s, q, k);
            assert(near(origin, s, q, n));
            assert(led(origin, cells, s, q));
            assert(q != c);
            assert(inside(cells, q)) by {
                assert(origin[q.0 as int].len() == cells[q.0 as int].len());
            }
            assert(at(marked, q) == at(cells, q));
        }
        lemma_trace_ring(marked, origin, s, p, n - 1);
        assert forall|q: (usize, usize)| inside(cells, q) implies (#[trigger] at(
            cells,
            q,
        )).parent_coords == at(marked, q).parent_coords by {
            if q != c {
                assert(at(marked, q) == at(cells, q));
            }
        }
        lemma_trail_same(cells, marked, p, n - 1);
        let rest = trail(marked, p, n - 1);
        let whole = trail(cells, c, n);
        assert(whole == seq![c] + rest);
        let done = trace_path(cells, c);
        assert(done == trace_path(marked, p));
        lemma_trace_path(marked, p);
        lemma_advanced_at(marked, done, c);
        if n == 1 {
            lemma_reach_cell(origin, s, p, 0);
        }
        assert forall|i: int| 0 <= i < n implies {
            let d = #[trigger] whole[i];
            let parent = if i + 1 < n {
                whole[i + 1]
            } else {
                s
            };
            &&& inside(cells, d)
            &&& at(done, d).state == State::Path
            &&& ring(origin, s, d, n - i)
            &&& at(done, d).parent_coords == Some(parent)
            &&& manhattan(parent, d) == 1
        } by {
            if i == 0 {
                assert(whole[0] == c);
                if n > 1 {
                    assert(whole[1] == rest[0]);
                    assert(rest[0] == p);
                }
            } else {
                assert(whole[i] == rest[i - 1]);
                assert(ring(origin, s, rest[i - 1], (n - 1) - (i - 1)));
                if i + 1 < n {
                    assert(whole[i + 1] == rest[i]);
                }
            }
        }
    }
}

/// `path` is a way that the search has marked on `cells`, told from the
/// target's end. Its first cell sees a target, each cell has the next one
/// as its parent and is one step from it, and the last cell has the start
/// as its parent. Its cells were empty cells of `origin` and are path
/// cells now. Where the start itself sees a target, the way has no cell.
pub open spec fn is_marked_way(
    origin: Seq<Seq<Node>>,
    cells: Seq<Seq<Node>>,
    s: (usize, usize),
    path: Seq<(usize, usize)>,
) -> bool {
    let head = if path.len() > 0 {
        path[0]
    } else {
        s
    };
    &&& sees_target(origin, head)
    &&& reach(origin, s, head, path.len() as int)
    &&& forall|i: int|
        0 <= i < path.len() ==> {
            let d = #[trigger] path[i];
            let parent = if i + 1 < path.len() {
                path[i + 1]
            } else {
                s
            };
            &&& inside(cells, d)
            &&& at(origin, d).state == State::Empty
            &&& at(cells, d).state == State::Path
            &&& at(cells, d).parent_coords == Some(parent)
            &&& manhattan(parent, d) == 1
        }
}

/// No cell that can be reached in fewer than `n` steps sees a target.
pub open spec fn cold_before(origin: Seq<Seq<Node>>, s: (usize, usize), n: int) -> bool {
    forall|p: (usize, usize), m: int|
        0 <= m < n && #[trigger] reach(origin, s, p, m) ==> !sees_target(origin, p)
}

/// The generation that reaches a target ends the search and marks a way
/// of one cell in each ring up to the one from which the target is seen.
pub proof fn lemma_wave_found(g: GridView, origin: Seq<Seq<Node>>, s: (usize, usize), n: int) -> (path:
    Seq<(usize, usize)>)
    requires
        wave(g, origin, s, n),
        hot(origin, s, n),
    ensures
        g.outcome() == Solve::Stop,
        path.len() == n,
        is_marked_way(origin, g.step().cells, s, path),
        count(g.step().cells, State::Path) == n,
{
    let empty = Seq::<(usize, usize)>::empty();
    let sw = g.sweep();
    lemma_wave_targets(g, origin, s, n);
    lemma_wave_hot(g, origin, s, n);
    lemma_wave_scan(g, origin, s, n);
    lemma_sweep(g.cells, g.frontier, 0, empty);
    lemma_sweep_finder(g.cells, g.frontier, 0, empty);
    let f = sw.finder->0;
    let m = choose|m: int| 0 <= m < g.frontier.len() && (#[trigger] g.frontier[m]) == f;
    assert(ring(origin, s, f, n));
    assert(inside(g.cells, f));
    lemma_sees_same_targets(origin, g.cells, f);
    assert(scan_cell(origin, sw.cells, s, s, n));
    assert(at(origin, s).state != State::Visited);
    assert forall|q: (usize, usize)|
        inside(origin, q) && at(origin, q).state == State::Empty && near(origin, s, q, n)
        implies #[trigger] led(origin, sw.cells, s, q) by {
        assert(scan_cell(origin, sw.cells, s, q, n));
    }
    lemma_trace_ring(sw.cells, origin, s, f, n);
    lemma_trace_path(sw.cells, f);
    let path = trail(sw.cells, f, n);
    let done = g.step().cells;
    assert(done == trace_path(sw.cells, f));
    lemma_reach_cell(origin, s, f, n);
    assert forall|i: int| 0 <= i < path.len() implies {
        let d = #[trigger] path[i];
        let parent = if i + 1 < path.len() {
            path[i + 1]
        } else {
            s
        };
        &&& inside(done, d)
        &&& at(origin, d).state == State::Empty
        &&& at(done, d).state == State::Path
        &&& at(done, d).parent_coords == Some(parent)
        &&& manhattan(parent, d) == 1
    } by {
        let d = path[i];
        assert(ring(origin, s, d, n - i));
        lemma_reach_cell(origin, s, d, n - i);
        assert(inside(sw.cells, d));
    }
    path
}

/// If no target can be seen from ring `n`, nor from the rings before, then
/// no cell that can be reached in `n` steps or fewer sees a target.
pub proof fn lemma_wave_cold(g: GridView, origin: Seq<Seq<Node>>, s: (usize, usize), n: int)
    requires
        wave(g, origin, s, n),
        !hot(origin, s, n),
    ensures
        cold_before(origin, s, n + 1),
{
    assert forall|p: (usize, usize), m: int|
        0 <= m < n + 1 && #[trigger] reach(origin, s, p, m) implies !sees_target(origin, p) by {
        if m == n {
            if near(origin, s, p, n - 1) {
                let k = choose|k: int| 0 <= k <= n - 1 && #[trigger] reach(origin, s, p, k);
            } else {
                assert(ring(origin, s, p, n));
            }
        }
    }
}

/// A cell of ring `n + 1` has a neighbour in ring `n`, from which its
/// last step comes.
pub proof fn lemma_ring_back(origin: Seq<Seq<Node>>, s: (usize, usize), c: (usize, usize), n: int) -> (p:
    (usize, usize))
    requires
        inside(origin, s),
        n >= 0,
        ring(origin, s, c, n + 1),
    ensures
        ring(origin, s, p, n),
        inside(origin, p),
        inside(origin, c),
        at(origin, c).state == State::Empty,
        manhattan(p, c) == 1,
        !near(origin, s, c, n),
{
    let p = lemma_reach_back(origin, s, c, n + 1);
    lemma_reach_cell(origin, s, c, n + 1);
    if near(origin, s, p, n - 1) {
        let k = choose|k: int| 0 <= k <= n - 1 && #[trigger] reach(origin, s, p, k);
        lemma_reach_step(origin, s, p, c, k);
        assert(near(origin, s, c, n));
    }
    p
}

/// A generation that reaches no target reaches every cell of the next
/// ring: the cell is not empty afterwards, and it is in the next frontier.
pub proof fn lemma_wave_reaches(
    g: GridView,
    origin: Seq<Seq<Node>>,
    s: (usize, usize),
    n: int,
    c: (usize, usize),
)
    requires
        wave(g, origin, s, n),
        g.sweep().finder is None,
        ring(origin, s, c, n + 1),
    ensures
        at(g.sweep().cells, c).state != State::Empty,
        occurs(g.sweep().next, 0, c),
{
    let empty = Seq::<(usize, usize)>::empty();
    let sw = g.sweep();
    let h = g.cells.len() as int;
    let w = g.cells[0].len() as int;
    lemma_wave_targets(g, origin, s, n);
    let p = lemma_ring_back(origin, s, c, n);
    assert(occurs(g.frontier, 0, p));
    let m = choose|m: int| 0 <= m < g.frontier.len() && (#[trigger] g.frontier[m]) == p;
    assert(inside(g.cells, p));
    assert(inside(g.cells, c));
    assert(g.cells[p.0 as int].len() == w);
    assert(g.cells[c.0 as int].len() == w);
    lemma_adjacent_complete(h, w, p, c);
    let k = choose|k: int|
        0 <= k < neighbour_coords(g.cells, p).len() && (#[trigger] neighbour_coords(
            g.cells,
            p,
        )[k]) == c;
    lemma_sweep_discovers(g.cells, g.frontier, 0, empty);
    assert(at(sw.cells, neighbour_coords(g.cells, g.frontier[m])[k]).state != State::Empty);
    assert(wave_cell(origin, g.cells, s, c, n));
    assert(at(g.cells, c).state == State::Empty);
    assert(at(sw.cells, c).state != State::Empty);
}

/// After a generation that reaches no target, every cell is as the search
/// leaves it after one generation more.
pub proof fn lemma_wave_cell_next(
    g: GridView,
    origin: Seq<Seq<Node>>,
    s: (usize, usize),
    n: int,
    c: (usize, usize),
)
    requires
        wave(g, origin, s, n),
        g.sweep().finder is None,
        inside(origin, c),
        scan_cell(origin, g.sweep().cells, s, c, n),
    ensures
        wave_cell(origin, g.sweep().cells, s, c, n + 1),
{
    if at(origin, c).state == State::Empty {
        if near(origin, s, c, n + 1) {
            if !near(origin, s, c, n) {
                let k = choose|k: int| 0 <= k <= n + 1 && #[trigger] reach(origin, s, c, k);
                assert(k == n + 1);
                assert(ring(origin, s, c, n + 1));
                lemma_wave_reaches(g, origin, s, n, c);
            }
        } else {
            if near(origin, s, c, n) {
                let k = choose|k: int| 0 <= k <= n && #[trigger] reach(origin, s, c, k);
                assert(near(origin, s, c, n + 1));
            }
            if ring(origin, s, c, n + 1) {
                assert(reach(origin, s, c, n + 1));
                assert(near(origin, s, c, n + 1));
            }
        }
    }
}

/// After a generation that reaches no target, the cells of the next
/// frontier are cells of the next ring.
pub proof fn lemma_wave_frontier_next(g: GridView, origin: Seq<Seq<Node>>, s: (usize, usize), n: int)
    requires
        wave(g, origin, s, n),
        g.sweep().finder is None,
        forall|c: (usize, usize)|
            inside(origin, c) ==> #[trigger] scan_cell(origin, g.sweep().cells, s, c, n),
    ensures
        forall|k: int|
            0 <= k < g.sweep().next.len() ==> ring(origin, s, #[trigger] g.sweep().next[k], n + 1),
{
    let empty = Seq::<(usize, usize)>::empty();
    let sw = g.sweep();
    lemma_wave_targets(g, origin, s, n);
    lemma_sweep_next(g.cells, g.frontier, 0, empty);
    assert forall|k: int| 0 <= k < sw.next.len() implies ring(
        origin,
        s,
        #[trigger] sw.next[k],
        n + 1,
    ) by {
        let c = sw.next[k];
        assert(inside(g.cells, c));
        assert(inside(origin, c));
        assert(at(g.cells, c).state == State::Empty);
        assert(at(sw.cells, c).state == State::Visited);
        assert(wave_cell(origin, g.cells, s, c, n));
        assert(scan_cell(origin, sw.cells, s, c, n));
    }
}

/// A generation that reaches no target carries the search on to the next
/// ring. If that ring is empty the search is over: the frontier is empty,
/// and no path is marked.
pub proof fn lemma_wave_next(g: GridView, origin: Seq<Seq<Node>>, s: (usize, usize), n: int)
    requires
        wave(g, origin, s, n),
        !hot(origin, s, n),
    ensures
        cold_before(origin, s, n + 1),
        g.outcome() == Solve::Continue ==> wave(g.step(), origin, s, n + 1),
        g.outcome() != Solve::Continue ==> {
            &&& g.step().frontier.len() == 0
            &&& count(g.step().cells, State::Path) == 0
            &&& forall|c: (usize, usize)| !(#[trigger] ring(origin, s, c, n + 1))
        },
{
    let empty = Seq::<(usize, usize)>::empty();
    let sw = g.sweep();
    lemma_wave_hot(g, origin, s, n);
    lemma_wave_scan(g, origin, s, n);
    lemma_wave_cold(g, origin, s, n);
    lemma_step(g);
    lemma_sweep_finder(g.cells, g.frontier, 0, empty);
    assert(sw.finder is None);
    let after = g.step();
    assert(after.cells == sw.cells);
    assert(after.frontier == sw.next);
    if g.outcome() == Solve::Continue {
        assert forall|c: (usize, usize)| inside(origin, c) implies #[trigger] wave_cell(
            origin,
            after.cells,
            s,
            c,
            n + 1,
        ) by {
            assert(scan_cell(origin, sw.cells, s, c, n));
            lemma_wave_cell_next(g, origin, s, n, c);
        }
        lemma_wave_frontier_next(g, origin, s, n);
        assert forall|c: (usize, usize)|
            inside(origin, c) && ring(origin, s, c, n + 1) implies #[trigger] occurs(
            after.frontier,
            0,
            c,
        ) by {
            lemma_wave_reaches(g, origin, s, n, c);
        }
        lemma_wave_assemble(g, after, origin, s, n);
    } else {
        assert(sw.next.len() == 0);
        assert forall|c: (usize, usize)| !(#[trigger] ring(origin, s, c, n + 1)) by {
            if ring(origin, s, c, n + 1) {
                lemma_wave_reaches(g, origin, s, n, c);
                let j = choose|j: int| 0 <= j < sw.next.len() && (#[trigger] sw.next[j]) == c;
            }
        }
    }
}

/// The parts of which the next wave is made.
proof fn lemma_wave_assemble(
    g: GridView,
    after: GridView,
    origin: Seq<Seq<Node>>,
    s: (usize, usize),
    n: int,
)
    requires
        wave(g, origin, s, n),
        after.wf(),
        same_shape(origin, after.cells),
        forall|c: (usize, usize)|
            inside(origin, c) ==> #[trigger] wave_cell(origin, after.cells, s, c, n + 1),
        forall|k: int|
            0 <= k < after.frontier.len() ==> ring(origin, s, #[trigger] after.frontier[k], n + 1),
        forall|c: (usize, usize)|
            inside(origin, c) && ring(origin, s, c, n + 1) ==> #[trigger] occurs(
                after.frontier,
                0,
                c,
            ),
        cold_before(origin, s, n + 1),
        count(after.cells, State::Path) == 0,
    ensures
        wave(after, origin, s, n + 1),
{
}

/// If a ring is empty, so are all the rings after it: every cell that can
/// be reached at all is in one of the rings before.
pub proof fn lemma_exhausted(
    origin: Seq<Seq<Node>>,
    s: (usize, usize),
    n: int,
    c: (usize, usize),
    m: int,
)
    requires
        inside(origin, s),
        n >= 0,
        forall|q: (usize, usize)| !(#[trigger] ring(origin, s, q, n + 1)),
        reach(origin, s, c, m),
    ensures
        near(origin, s, c, n),
    decreases m,
{
    lemma_reach_cell(origin, s, c, m);
    if m <= n {
    } else {
        let p = lemma_reach_back(origin, s, c, m);
        lemma_exhausted(origin, s, n, p, m - 1);
        let k = choose|k: int| 0 <= k <= n && #[trigger] reach(origin, s, p, k);
        lemma_reach_step(origin, s, p, c, k);
        if k + 1 <= n {
            assert(near(origin, s, c, n));
        } else {
            assert(reach(origin, s, c, n + 1));
            assert(!ring(origin, s, c, n + 1));
        }
    }
}

/// What the search comes to from the ring it has reached. If it reaches a
/// target, it has marked a way back from it, and no cell that sees a target
/// can be reached in fewer steps than that way has cells. If it does not,
/// no cell that can be reached sees a target.
pub proof fn lemma_wave_run(g: GridView, origin: Seq<Seq<Node>>, s: (usize, usize), n: int) -> (found:
    Option<Seq<(usize, usize)>>)
    requires
        wave(g, origin, s, n),
    ensures
        match found {
            Some(path) => {
                &&& is_marked_way(origin, g.run().cells, s, path)
                &&& count(g.run().cells, State::Path) == path.len()
                &&& cold_before(origin, s, path.len() as int)
            },
            None => {
                &&& count(g.run().cells, State::Path) == 0
                &&& g.run().frontier.len() == 0
                &&& forall|p: (usize, usize), m: int| #[trigger]
                    reach(origin, s, p, m) ==> !sees_target(origin, p)
            },
        },
    decreases count(g.cells, State::Empty),
{
    if hot(origin, s, n) {
        let path = lemma_wave_found(g, origin, s, n);
        Some(path)
    } else {
        lemma_wave_next(g, origin, s, n);
        lemma_step(g);
        if g.outcome() == Solve::Continue {
            lemma_wave_run(g.step(), origin, s, n + 1)
        } else {
            assert forall|p: (usize, usize), m: int| #[trigger]
                reach(origin, s, p, m) implies !sees_target(origin, p) by {
                lemma_exhausted(origin, s, n, p, m);
                let k = choose|k: int| 0 <= k <= n && #[trigger] reach(origin, s, p, k);
            }
            None
        }
    }
}

/// The search finds a shortest path, whatever walls there are.
///
/// Take a grid that is ready for a search from `s`, and run the search to
/// its end. If some cell that can be reached from `s` over empty cells sees
/// a target, the search has marked a way from such a cell back to `s`: the
/// cells of that way are the path cells of the grid, and no cell that sees
/// a target can be reached in fewer steps than the way has cells. The way
/// comes back as `Some`, told from the target's end. If no cell that can be
/// reached sees a target, the search has marked nothing and has ended with
/// an empty frontier, and `None` comes back.
pub proof fn law_search_finds_shortest_path(g: GridView, s: (usize, usize)) -> (found: Option<
    Seq<(usize, usize)>,
>)
    requires
        searchable(g, s),
    ensures
        match found {
            Some(path) => {
                &&& is_marked_way(g.cells, g.run().cells, s, path)
                &&& count(g.run().cells, State::Path) == path.len()
                &&& cold_before(g.cells, s, path.len() as int)
            },
            None => {
                &&& count(g.run().cells, State::Path) == 0
                &&& g.run().frontier.len() == 0
                &&& forall|p: (usize, usize), m: int| #[trigger]
                    reach(g.cells, s, p, m) ==> !sees_target(g.cells, p)
            },
        },
{
    let origin = g.cells;
    lemma_reach_start(origin, s);
    assert forall|i: int, j: int| 0 <= i < g.cells.len() && 0 <= j < g.cells[i].len() implies (
    #[trigger] g.cells[i][j]).state != State::Path by {
        let c = (i as usize, j as usize);
        assert(g.cells[i].len() == g.cells[0].len());
        assert(inside(g.cells, c));
        assert(at(g.cells, c) == g.cells[i][j]);
    }
    lemma_count_none(g.cells, State::Path);
    assert forall|c: (usize, usize)| inside(origin, c) implies #[trigger] wave_cell(
        origin,
        g.cells,
        s,
        c,
        0,
    ) by {
        if near(origin, s, c, 0) {
            let k = choose|k: int| 0 <= k <= 0 && #[trigger] reach(origin, s, c, k);
            lemma_reach_cell(origin, s, c, k);
        }
    }
    assert forall|k: int| 0 <= k < g.frontier.len() implies ring(
        origin,
        s,
        #[trigger] g.frontier[k],
        0,
    ) by {
        assert(g.frontier[k] == s);
    }
    assert forall|c: (usize, usize)|
        inside(origin, c) && ring(origin, s, c, 0) implies #[trigger] occurs(g.frontier, 0, c) by {
        lemma_reach_cell(origin, s, c, 0);
        assert(g.frontier[0] == s);
    }
    assert(wave(g, origin, s, 0));
    lemma_wave_run(g, origin, s, 0)
}

} // verus!
