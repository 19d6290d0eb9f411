//! The search on a grid without walls: it finds a shortest path.
//!
//! On such a grid the search spreads like a wave. After `n` generations the
//! cells up to `n` steps from the start are visited, each with a parent one
//! step nearer to the start, and the cells exactly `n` steps away are the
//! frontier. The generation that reaches the target marks one cell for each
//! distance between start and target.
use vstd::prelude::*;
use crate::discovery::discovered_by;
use crate::discovery::frontier_sees_target;
use crate::discovery::lemma_scanned_at;
use crate::discovery::lemma_sweep_discovers;
use crate::discovery::lemma_sweep_finder;
use crate::discovery::lemma_sweep_next;
use crate::discovery::occurs;
use crate::discovery::sees_target;
use crate::matrix::Solve;
use crate::model::at;
use crate::model::cells_wf;
use crate::model::count;
use crate::model::inside;
use crate::model::lemma_adjacent;
use crate::model::lemma_adjacent_complete;
use crate::model::lemma_count_none;
use crate::model::lemma_count_put;
use crate::model::lemma_count_same;
use crate::model::lemma_put_wf;
use crate::model::manhattan;
use crate::model::neighbour_coords;
use crate::model::put;
use crate::model::trace_path;
use crate::model::GridView;
use crate::node::Node;
use crate::node::State;
use crate::progress::lemma_advanced_at;
use crate::progress::lemma_step;
use crate::progress::lemma_trace_path;
use crate::progress::same_shape;
use crate::progress::lemma_sweep;
use crate::progress::scanned;

verus! {

/// The grid without walls, with the start at `s` and the target at `t`, as
/// it is before the search begins: the start is the frontier, and every
/// other cell but the target is empty.
pub open spec fn open_grid(height: nat, width: nat, s: (usize, usize), t: (usize, usize)) -> GridView {
    GridView::fresh(height, width).with_state(s, State::Start).activate(s).with_state(
        t,
        State::Target,
    )
}

/// The position one step from `c` towards `s`.
pub open spec fn toward(s: (usize, usize), c: (usize, usize)) -> (usize, usize) {
    if c.0 > s.0 {
        ((c.0 - 1) as usize, c.1)
    } else if c.0 < s.0 {
        ((c.0 + 1) as usize, c.1)
    } else if c.1 > s.1 {
        (c.0, (c.1 - 1) as usize)
    } else {
        (c.0, (c.1 + 1) as usize)
    }
}

/// The position `n` steps from `s` on the way to `t` that goes along the
/// column of `s` first and along the row of `t` then.
pub open spec fn waypoint(s: (usize, usize), t: (usize, usize), n: int) -> (usize, usize) {
    let rows = if t.0 >= s.0 {
        t.0 - s.0
    } else {
        s.0 - t.0
    };
    if n <= rows {
        (
            (if t.0 >= s.0 {
                s.0 + n
            } else {
                s.0 - n
            }) as usize,
            s.1,
        )
    } else {
        (
            t.0,
            (if t.1 >= s.1 {
                s.1 + (n - rows)
            } else {
                s.1 - (n - rows)
            }) as usize,
        )
    }
}

/// The cell at `q` is visited, and its parent is a cell next to it that is
/// one step nearer to `s`.
pub open spec fn on_the_way(cells: Seq<Seq<Node>>, s: (usize, usize), q: (usize, usize)) -> bool {
    &&& at(cells, q).state == State::Visited
    &&& at(cells, q).parent_coords matches Some(p) && inside(cells, p) && manhattan(p, q) == 1
        && manhattan(s, p) + 1 == manhattan(s, q)
}

/// The cell at `c` as the wave leaves it after `n` generations: on the way
/// if it is at most `n` steps from `s`, and empty if it is farther.
pub open spec fn settled(cells: Seq<Seq<Node>>, s: (usize, usize), c: (usize, usize), n: int) -> bool {
    if manhattan(s, c) <= n {
        on_the_way(cells, s, c)
    } else {
        at(cells, c).state == State::Empty
    }
}

/// The cell at `c` while generation `n + 1` is under way: as after `n`
/// generations, but a cell `n + 1` steps from `s` may be on the way
/// already.
pub open spec fn settling(cells: Seq<Seq<Node>>, s: (usize, usize), c: (usize, usize), n: int) -> bool {
    if manhattan(s, c) <= n {
        on_the_way(cells, s, c)
    } else {
        at(cells, c).state == State::Empty || (manhattan(s, c) == n + 1 && on_the_way(cells, s, c))
    }
}

/// The grid after `n` generations of a search from `s` for `t` on a grid
/// without walls, where `t` is more than `n` steps away.
pub open spec fn wave(g: GridView, s: (usize, usize), t: (usize, usize), n: int) -> bool {
    &&& g.wf()
    &&& inside(g.cells, s)
    &&& inside(g.cells, t)
    &&& 0 <= n < manhattan(s, t)
    &&& at(g.cells, s).state == State::Start
    &&& at(g.cells, t).state == State::Target
    &&& forall|c: (usize, usize)|
        inside(g.cells, c) && c != s && c != t ==> #[trigger] settled(g.cells, s, c, n)
    &&& forall|k: int| 0 <= k < g.frontier.len() ==> manhattan(s, #[trigger] g.frontier[k]) == n
    &&& forall|c: (usize, usize)|
        inside(g.cells, c) && manhattan(s, c) == n && c != t ==> #[trigger] occurs(g.frontier, 0, c)
    &&& count(g.cells, State::Path) == 0
}

/// One step towards `s` stays in the grid, is one step, and leads one step
/// nearer to `s`.
pub proof fn lemma_toward(cells: Seq<Seq<Node>>, s: (usize, usize), c: (usize, usize))
    requires
        cells_wf(cells),
        inside(cells, s),
        inside(cells, c),
        c != s,
    ensures
        inside(cells, toward(s, c)),
        manhattan(toward(s, c), c) == 1,
        manhattan(s, toward(s, c)) + 1 == manhattan(s, c),
{
    let q = toward(s, c);
    assert(cells[c.0 as int].len() == cells[0].len());
    assert(cells[s.0 as int].len() == cells[0].len());
    assert(cells[q.0 as int].len() == cells[0].len());
}

/// The way from `s` to `t` stays in the grid, and its position `n` is `n`
/// steps from `s`.
pub proof fn lemma_waypoint(cells: Seq<Seq<Node>>, s: (usize, usize), t: (usize, usize), n: int)
    requires
        cells_wf(cells),
        inside(cells, s),
        inside(cells, t),
        0 <= n <= manhattan(s, t),
    ensures
        inside(cells, waypoint(s, t, n)),
        manhattan(s, waypoint(s, t, n)) == n,
        n < manhattan(s, t) ==> waypoint(s, t, n) != t,
{
    let q = waypoint(s, t, n);
    assert(cells[t.0 as int].len() == cells[0].len());
    assert(cells[s.0 as int].len() == cells[0].len());
    assert(cells[q.0 as int].len() == cells[0].len());
}

/// Marking the path from a cell `n` steps from the start, on a grid where
/// every cell up to there is on the way, marks `n` cells.
pub proof fn lemma_trace_count(cells: Seq<Seq<Node>>, s: (usize, usize), c: (usize, usize))
    requires
        cells_wf(cells),
        inside(cells, s),
        inside(cells, c),
        at(cells, s).state != State::Visited,
        forall|q: (usize, usize)|
            inside(cells, q) && q != s && manhattan(s, q) <= manhattan(s, c) ==> #[trigger] on_the_way(
                cells,
                s,
                q,
            ),
    ensures
        count(trace_path(cells, c), State::Path) == count(cells, State::Path) + manhattan(s, c),
    decreases manhattan(s, c),
{
    if c == s {
    } else {
        assert(on_the_way(cells, s, c));
        let node = at(cells, c).marked();
        let marked = put(cells, c, node);
        let p = at(cells, c).parent_coords->0;
        lemma_count_put(cells, c, node, State::Path);
        lemma_put_wf(cells, c, node);
        assert forall|q: (usize, usize)|
            inside(marked, q) && q != s && manhattan(s, q) <= manhattan(s, p) implies #[trigger] on_the_way(
            marked,
            s,
            q,
        ) by {
            assert(on_the_way(cells, s, q));
            assert(q != c);
            assert(at(marked, q) == at(cells, q));
        }
        assert(at(marked, s) == at(cells, s));
        lemma_trace_count(marked, s, p);
    }
}

/// The cells from `c` back to the start `s`, from parent to parent, on a
/// grid where the cells passed are on the way. The start itself is left out.
pub open spec fn way_back(cells: Seq<Seq<Node>>, s: (usize, usize), c: (usize, usize)) -> Seq<
    (usize, usize),
>
    decreases manhattan(s, c),
{
    if c != s && on_the_way(cells, s, c) {
        seq![c] + way_back(cells, s, at(cells, c).parent_coords->0)
    } else {
        Seq::empty()
    }
}

/// `path` is a shortest way between the start `s` and the target `t`,
/// marked on the grid, told from the target's end. It has one cell for
/// each distance from the start that lies strictly between the two. Its
/// first cell is next to the target, each cell has the next one as its
/// parent and is one step from it, and the last cell is next to the start
/// and has the start as its parent. All its cells are path cells.
pub open spec fn is_way(
    cells: Seq<Seq<Node>>,
    s: (usize, usize),
    t: (usize, usize),
    path: Seq<(usize, usize)>,
) -> bool {
    &&& path.len() + 1 == manhattan(s, t)
    &&& path.len() > 0 ==> manhattan(path[0], t) == 1
    &&& forall|i: int|
        0 <= i < path.len() ==> {
            let c = #[trigger] path[i];
            let parent = if i + 1 < path.len() {
                path[i + 1]
            } else {
                s
            };
            &&& inside(cells, c)
            &&& at(cells, c).state == State::Path
            &&& manhattan(s, c) + i + 1 == manhattan(s, t)
            &&& at(cells, c).parent_coords == Some(parent)
            &&& manhattan(parent, c) == 1
        }
}

/// The way back from a cell passes only cells that are nearer to the start,
/// so it is the same on two grids of one shape that agree on these.
pub proof fn lemma_way_back_same(
    a: Seq<Seq<Node>>,
    b: Seq<Seq<Node>>,
    s: (usize, usize),
    c: (usize, usize),
)
    requires
        same_shape(a, b),
        inside(a, c),
        forall|q: (usize, usize)|
            inside(a, q) && manhattan(s, q) <= manhattan(s, c) ==> #[trigger] at(a, q) == at(b, q),
    ensures
        way_back(a, s, c) == way_back(b, s, c),
    decreases manhattan(s, c),
{
    assert(at(a, c) == at(b, c));
    if c != s && at(a, c).parent_coords is Some {
        let p = at(a, c).parent_coords->0;
        assert(inside(a, p) == inside(b, p));
        if on_the_way(a, s, c) {
            assert forall|q: (usize, usize)|
                inside(a, q) && manhattan(s, q) <= manhattan(s, p) implies #[trigger] at(a, q)
                == at(b, q) by {
                assert(at(a, q) == at(b, q));
            }
            lemma_way_back_same(a, b, s, p);
        }
    }
}

/// Marking the path from a cell `n` steps from the start, on a grid where
/// every cell up to there is on the way, marks the `n` cells on the way
/// back from it, and leaves their parents as they are.
pub proof fn lemma_trace_way(cells: Seq<Seq<Node>>, s: (usize, usize), c: (usize, usize))
    requires
        cells_wf(cells),
        inside(cells, s),
        inside(cells, c),
        at(cells, s).state != State::Visited,
        forall|q: (usize, usize)|
            inside(cells, q) && q != s && manhattan(s, q) <= manhattan(s, c) ==> #[trigger] on_the_way(
                cells,
                s,
                q,
            ),
    ensures
        way_back(cells, s, c).len() == manhattan(s, c),
        c != s ==> way_back(cells, s, c)[0] == c,
        forall|i: int|
            0 <= i < way_back(cells, s, c).len() ==> {
                let d = #[trigger] way_back(cells, s, c)[i];
                let parent = if i + 1 < way_back(cells, s, c).len() {
                    way_back(cells, s, c)[i + 1]
                } else {
                    s
                };
                &&& inside(cells, d)
                &&& at(trace_path(cells, c), d).state == State::Path
                &&& manhattan(s, d) + i == manhattan(s, c)
                &&& at(trace_path(cells, c), d).parent_coords == Some(parent)
                &&& manhattan(parent, d) == 1
            },
    decreases manhattan(s, c),
{
    if c == s {
    } else {
        assert(on_the_way(cells, s, c));
        let node = at(cells, c).marked();
        let marked = put(cells, c, node);
        let p = at(cells, c).parent_coords->0;
        lemma_put_wf(cells, c, node);
        assert forall|q: (usize, usize)|
            inside(marked, q) && q != s && manhattan(s, q) <= manhattan(s, p) implies #[trigger] on_the_way(
            marked,
            s,
            q,
        ) by {
            assert(on_the_way(cells, s, q));
            assert(q != c);
            assert(at(marked, q) == at(cells, q));
        }
        assert(at(marked, s) == at(cells, s));
        lemma_trace_way(marked, s, p);
        assert forall|q: (usize, usize)|
            inside(cells, q) && manhattan(s, q) <= manhattan(s, p) implies #[trigger] at(cells, q)
            == at(marked, q) by {
            assert(q != c);
            assert(at(marked, q) == at(cells, q));
        }
        lemma_way_back_same(cells, marked, s, p);
        let rest = way_back(marked, s, p);
        let whole = way_back(cells, s, c);
        assert(whole == seq![c] + rest);
        let done = trace_path(cells, c);
        assert(done == trace_path(marked, p));
        lemma_trace_path(marked, p);
        lemma_advanced_at(marked, done, c);
        assert(manhattan(p, c) == 1);
        assert forall|i: int| 0 <= i < whole.len() implies {
            let d = #[trigger] whole[i];
            let parent = if i + 1 < whole.len() {
                whole[i + 1]
            } else {
                s
            };
            &&& inside(cells, d)
            &&& at(done, d).state == State::Path
            &&& manhattan(s, d) + i == manhattan(s, c)
            &&& at(done, d).parent_coords == Some(parent)
            &&& manhattan(parent, d) == 1
        } by {
            if i == 0 {
                assert(whole[0] == c);
                if rest.len() > 0 {
                    assert(whole[1] == rest[0]);
                    assert(rest[0] == p);
                } else {
                    assert(p == s);
                }
            } else {
                assert(whole[i] == rest[i - 1]);
                if i + 1 < whole.len() {
                    assert(whole[i + 1] == rest[i]);
                }
            }
        }
    }
}

/// After `n` generations a frontier cell that sees the target is next to
/// it.
pub proof fn lemma_wave_seer(
    g: GridView,
    s: (usize, usize),
    t: (usize, usize),
    n: int,
    f: (usize, usize),
)
    requires
        wave(g, s, t, n),
        inside(g.cells, f),
        manhattan(s, f) == n,
        sees_target(g.cells, f),
    ensures
        manhattan(f, t) == 1,
{
    let h = g.cells.len() as int;
    let w = g.cells[0].len() as int;
    lemma_adjacent(h, w, f);
    if f != s {
        assert(settled(g.cells, s, f, n));
    }
    assert(at(g.cells, f).state != State::Target);
    let k = choose|k: int|
        0 <= k < neighbour_coords(g.cells, f).len() && at(
            g.cells,
            #[trigger] neighbour_coords(g.cells, f)[k],
        ).state == State::Target;
    let d = neighbour_coords(g.cells, f)[k];
    assert(g.cells[d.0 as int].len() == w);
    assert(inside(g.cells, d));
    if d != s && d != t {
        assert(settled(g.cells, s, d, n));
    }
    assert(d == t);
}

/// After `n` generations the frontier sees the target if, and only if, the
/// target is `n + 1` steps from the start.
pub proof fn lemma_wave_sees(g: GridView, s: (usize, usize), t: (usize, usize), n: int)
    requires
        wave(g, s, t, n),
    ensures
        frontier_sees_target(g.cells, g.frontier, 0) <==> n + 1 == manhattan(s, t),
{
    let h = g.cells.len() as int;
    let w = g.cells[0].len() as int;
    if n + 1 == manhattan(s, t) {
        let q = toward(s, t);
        lemma_toward(g.cells, s, t);
        assert(occurs(g.frontier, 0, q));
        let m = choose|m: int| 0 <= m < g.frontier.len() && (#[trigger] g.frontier[m]) == q;
        assert(g.cells[q.0 as int].len() == w);
        assert(g.cells[t.0 as int].len() == w);
        lemma_adjacent_complete(h, w, q, t);
        let k = choose|k: int|
            0 <= k < neighbour_coords(g.cells, q).len() && (#[trigger] neighbour_coords(
                g.cells,
                q,
            )[k]) == t;
        assert(at(g.cells, neighbour_coords(g.cells, q)[k]).state == State::Target);
        assert(sees_target(g.cells, g.frontier[m]));
    }
    if frontier_sees_target(g.cells, g.frontier, 0) {
        let m = choose|m: int|
            0 <= m < g.frontier.len() && sees_target(g.cells, #[trigger] g.frontier[m]);
        let f = g.frontier[m];
        assert(inside(g.cells, f));
        lemma_wave_seer(g, s, t, n, f);
    }
}

/// What a generation of the wave leaves behind, whether it reaches the
/// target or not: start and target are as they were, every other cell is
/// settling, and no path is marked yet.
pub proof fn lemma_wave_scan(g: GridView, s: (usize, usize), t: (usize, usize), n: int)
    requires
        wave(g, s, t, n),
    ensures
        cells_wf(g.sweep().cells),
        inside(g.sweep().cells, s),
        at(g.sweep().cells, s).state == State::Start,
        at(g.sweep().cells, t).state == State::Target,
        forall|c: (usize, usize)|
            inside(g.cells, c) && c != s && c != t ==> #[trigger] settling(g.sweep().cells, s, c, n),
        count(g.sweep().cells, State::Path) == 0,
{
    let empty = Seq::<(usize, usize)>::empty();
    let sw = g.sweep();
    let h = g.cells.len() as int;
    let w = g.cells[0].len() as int;
    lemma_sweep(g.cells, g.frontier, 0, empty);
    lemma_sweep_discovers(g.cells, g.frontier, 0, empty);
    lemma_scanned_at(g.cells, sw.cells, s);
    lemma_scanned_at(g.cells, sw.cells, t);
    assert forall|i: int, j: int| 0 <= i < g.cells.len() && 0 <= j < g.cells[i].len() implies ((
    #[trigger] g.cells[i][j]).state == State::Path) == (sw.cells[i][j].state == State::Path) by {
        assert(scanned(g.cells[i][j], sw.cells[i][j]));
    }
    lemma_count_same(g.cells, sw.cells, State::Path);
    assert forall|c: (usize, usize)| inside(g.cells, c) && c != s && c != t implies #[trigger] settling(
        sw.cells,
        s,
        c,
        n,
    ) by {
        assert(settled(g.cells, s, c, n));
        lemma_scanned_at(g.cells, sw.cells, c);
        if manhattan(s, c) <= n {
            let p = at(g.cells, c).parent_coords->0;
            assert(inside(g.cells, p));
            lemma_scanned_at(g.cells, sw.cells, p);
        } else if at(sw.cells, c).state != State::Empty {
            assert(discovered_by(g.cells, sw.cells, g.frontier, 0, c));
            let m = choose|m: int|
                0 <= m < g.frontier.len() && at(sw.cells, c).parent_coords == Some(
                    #[trigger] g.frontier[m],
                ) && occurs(neighbour_coords(g.cells, g.frontier[m]), 0, c);
            let f = g.frontier[m];
            assert(inside(g.cells, f));
            assert(manhattan(s, f) == n);
            lemma_adjacent(h, w, f);
            let k = choose|k: int|
                0 <= k < neighbour_coords(g.cells, f).len() && (#[trigger] neighbour_coords(
                    g.cells,
                    f,
                )[k]) == c;
            assert(manhattan(f, neighbour_coords(g.cells, f)[k]) == 1);
            lemma_scanned_at(g.cells, sw.cells, f);
        }
    }
}

/// The generation that reaches the target ends the search and marks a
/// shortest way between start and target, and nothing else.
pub proof fn lemma_wave_found(g: GridView, s: (usize, usize), t: (usize, usize), n: int) -> (path:
    Seq<(usize, usize)>)
    requires
        wave(g, s, t, n),
        n + 1 == manhattan(s, t),
    ensures
        g.outcome() == Solve::Stop,
        count(g.step().cells, State::Path) == n,
        is_way(g.step().cells, s, t, path),
{
    let empty = Seq::<(usize, usize)>::empty();
    let sw = g.sweep();
    lemma_wave_sees(g, s, t, n);
    lemma_wave_scan(g, s, t, n);
    lemma_sweep(g.cells, g.frontier, 0, empty);
    lemma_sweep_finder(g.cells, g.frontier, 0, empty);
    let f = sw.finder->0;
    let m = choose|m: int| 0 <= m < g.frontier.len() && (#[trigger] g.frontier[m]) == f;
    assert(manhattan(s, f) == n);
    assert(inside(g.cells, f));
    lemma_wave_seer(g, s, t, n, f);
    assert forall|q: (usize, usize)|
        inside(sw.cells, q) && q != s && manhattan(s, q) <= manhattan(s, f) implies #[trigger] on_the_way(
        sw.cells,
        s,
        q,
    ) by {
        assert(inside(g.cells, q));
        assert(q != t);
        assert(settling(sw.cells, s, q, n));
    }
    lemma_trace_count(sw.cells, s, f);
    lemma_trace_way(sw.cells, s, f);
    lemma_trace_path(sw.cells, f);
    let path = way_back(sw.cells, s, f);
    let done = g.step().cells;
    assert(done == trace_path(sw.cells, f));
    assert forall|i: int| 0 <= i < path.len() implies inside(done, #[trigger] path[i]) by {
        assert(inside(sw.cells, path[i]));
    }
    path
}

/// A generation that does not reach the target carries the wave one step
/// on, and the search goes on.
pub proof fn lemma_wave_next(g: GridView, s: (usize, usize), t: (usize, usize), n: int)
    requires
        wave(g, s, t, n),
        n + 1 < manhattan(s, t),
    ensures
        g.outcome() == Solve::Continue,
        wave(g.step(), s, t, n + 1),
{
    let empty = Seq::<(usize, usize)>::empty();
    let sw = g.sweep();
    let h = g.cells.len() as int;
    let w = g.cells[0].len() as int;
    lemma_wave_sees(g, s, t, n);
    lemma_wave_scan(g, s, t, n);
    lemma_step(g);
    lemma_sweep(g.cells, g.frontier, 0, empty);
    lemma_sweep_finder(g.cells, g.frontier, 0, empty);
    lemma_sweep_next(g.cells, g.frontier, 0, empty);
    lemma_sweep_discovers(g.cells, g.frontier, 0, empty);
    assert(sw.finder is None);
    let after = g.step();
    assert(after.cells == sw.cells);
    assert(after.frontier == sw.next);
    // Every cell one step beyond the wave has been reached.
    assert forall|c: (usize, usize)|
        inside(g.cells, c) && c != t && manhattan(s, c) == n + 1 implies at(sw.cells, c).state
        != State::Empty && occurs(sw.next, 0, c) by {
        let q = toward(s, c);
        lemma_toward(g.cells, s, c);
        assert(occurs(g.frontier, 0, q));
        let m = choose|m: int| 0 <= m < g.frontier.len() && (#[trigger] g.frontier[m]) == q;
        assert(g.cells[q.0 as int].len() == w);
        assert(g.cells[c.0 as int].len() == w);
        lemma_adjacent_complete(h, w, q, c);
        let k = choose|k: int|
            0 <= k < neighbour_coords(g.cells, q).len() && (#[trigger] neighbour_coords(
                g.cells,
                q,
            )[k]) == c;
        assert(at(sw.cells, neighbour_coords(g.cells, g.frontier[m])[k]).state != State::Empty);
        assert(settled(g.cells, s, c, n));
        assert(at(sw.cells, c).state != State::Empty);
    }
    assert forall|c: (usize, usize)| inside(after.cells, c) && c != s && c != t implies #[trigger] settled(
        after.cells,
        s,
        c,
        n + 1,
    ) by {
        assert(inside(g.cells, c));
        assert(settling(sw.cells, s, c, n));
    }
    assert forall|k: int| 0 <= k < after.frontier.len() implies manhattan(
        s,
        #[trigger] after.frontier[k],
    ) == n + 1 by {
        let c = sw.next[k];
        assert(inside(g.cells, c));
        assert(at(g.cells, c).state == State::Empty);
        assert(at(sw.cells, c).state == State::Visited);
        assert(c != s && c != t);
        assert(settled(g.cells, s, c, n));
        assert(settling(sw.cells, s, c, n));
    }
    assert forall|c: (usize, usize)|
        inside(after.cells, c) && manhattan(s, c) == n + 1 && c != t implies #[trigger] occurs(
        after.frontier,
        0,
        c,
    ) by {
        assert(inside(g.cells, c));
    }
    // The wave has not run out: the way to the target goes through it.
    let on = waypoint(s, t, n + 1);
    lemma_waypoint(g.cells, s, t, n + 1);
    assert(occurs(sw.next, 0, on));
}

/// On a grid without walls the search marks a shortest way between start
/// and target, and nothing else.
pub proof fn lemma_wave_run(g: GridView, s: (usize, usize), t: (usize, usize), n: int) -> (path:
    Seq<(usize, usize)>)
    requires
        wave(g, s, t, n),
    ensures
        count(g.run().cells, State::Path) == manhattan(s, t) - 1,
        is_way(g.run().cells, s, t, path),
    decreases manhattan(s, t) - n,
{
    if n + 1 == manhattan(s, t) {
        lemma_wave_found(g, s, t, n)
    } else {
        lemma_wave_next(g, s, t, n);
        lemma_wave_run(g.step(), s, t, n + 1)
    }
}

/// The grid holds no wall and has not been searched: `s` is the start and
/// the whole frontier, `t` is the target, and every other cell is empty.
pub open spec fn open_between(g: GridView, s: (usize, usize), t: (usize, usize)) -> bool {
    &&& g.wf()
    &&& inside(g.cells, s)
    &&& inside(g.cells, t)
    &&& s != t
    &&& at(g.cells, s).state == State::Start
    &&& at(g.cells, t).state == State::Target
    &&& forall|c: (usize, usize)|
        inside(g.cells, c) && c != s && c != t ==> (#[trigger] at(g.cells, c)).state
            == State::Empty
    &&& g.frontier == seq![s]
}

/// A fresh grid on which start and target have been placed holds no wall
/// and has not been searched.
pub proof fn lemma_open_grid(height: nat, width: nat, s: (usize, usize), t: (usize, usize))
    requires
        1 <= height <= usize::MAX,
        1 <= width <= usize::MAX,
        s.0 < height,
        s.1 < width,
        t.0 < height,
        t.1 < width,
        s != t,
    ensures
        open_between(open_grid(height, width, s, t), s, t),
{
    let g = open_grid(height, width, s, t);
    assert(g.wf());
    assert(g.frontier =~= seq![s]);
}

/// The search finds a shortest path. On a grid without walls, a search
/// that runs to its end marks a way between start and target that has one
/// cell for each distance strictly between the two, and marks no other
/// cell: with the start and the target themselves, which keep their own
/// states, the path has one cell more than there are steps between them.
/// The way it has marked comes back as `path`, told from the target's end.
pub proof fn law_open_grid_shortest_path(g: GridView, s: (usize, usize), t: (usize, usize)) -> (path:
    Seq<(usize, usize)>)
    requires
        open_between(g, s, t),
    ensures
        count(g.run().cells, State::Path) + 2 == manhattan(s, t) + 1,
        is_way(g.run().cells, s, t, path),
{
    assert forall|i: int, j: int| 0 <= i < g.cells.len() && 0 <= j < g.cells[i].len() implies (
    #[trigger] g.cells[i][j]).state != State::Path by {
        let c = (i as usize, j as usize);
        assert(g.cells[i].len() == g.cells[0].len());
        assert(inside(g.cells, c));
        assert(at(g.cells, c) == g.cells[i][j]);
    }
    lemma_count_none(g.cells, State::Path);
    assert forall|c: (usize, usize)| inside(g.cells, c) && c != s && c != t implies #[trigger] settled(
        g.cells,
        s,
        c,
        0,
    ) by {
        assert(at(g.cells, c).state == State::Empty);
    }
    assert forall|c: (usize, usize)|
        inside(g.cells, c) && manhattan(s, c) == 0 && c != t implies #[trigger] occurs(
        g.frontier,
        0,
        c,
    ) by {
        assert(c == s);
        assert(g.frontier[0] == s);
    }
    assert(wave(g, s, t, 0));
    lemma_wave_run(g, s, t, 0)
}

} // verus!
