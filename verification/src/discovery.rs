//! Which cells one generation discovers, from where, and when it reaches
//! the target.
use vstd::prelude::*;
use crate::model::at;
use crate::model::cells_wf;
use crate::model::deactivated;
use crate::model::expand;
use crate::model::inside;
use crate::model::lemma_adjacent;
use crate::model::lemma_put_wf;
use crate::model::neighbour_coords;
use crate::model::put;
use crate::model::sweep;
use crate::node::Node;
use crate::node::State;
use crate::progress::grid_scanned;
use crate::progress::lemma_expand;
use crate::progress::lemma_same_shape_inside;
use crate::progress::lemma_scanned_trans;
use crate::progress::lemma_sweep;
use crate::progress::same_shape;
use crate::progress::scanned;

verus! {

/// `c` is one of the entries `s[from..]`.
pub open spec fn occurs(s: Seq<(usize, usize)>, from: int, c: (usize, usize)) -> bool {
    exists|j: int| from <= j < s.len() && (#[trigger] s[j]) == c
}

/// The target is at `p` or next to it.
pub open spec fn sees_target(cells: Seq<Seq<Node>>, p: (usize, usize)) -> bool {
    ||| at(cells, p).state == State::Target
    ||| exists|k: int|
        0 <= k < neighbour_coords(cells, p).len() && at(
            cells,
            #[trigger] neighbour_coords(cells, p)[k],
        ).state == State::Target
}

/// One of the frontier cells `frontier[i..]` sees the target.
pub open spec fn frontier_sees_target(
    cells: Seq<Seq<Node>>,
    frontier: Seq<(usize, usize)>,
    i: int,
) -> bool {
    exists|m: int| i <= m < frontier.len() && sees_target(cells, #[trigger] frontier[m])
}

/// The same cells are targets in two grids.
pub open spec fn same_targets(a: Seq<Seq<Node>>, b: Seq<Seq<Node>>) -> bool {
    &&& same_shape(a, b)
    &&& forall|i: int, j: int|
        0 <= i < a.len() && 0 <= j < a[i].len() ==> ((#[trigger] a[i][j]).state == State::Target)
            == (b[i][j].state == State::Target)
}

/// One generation makes no target and unmakes none.
pub proof fn lemma_scanned_targets(a: Seq<Seq<Node>>, b: Seq<Seq<Node>>)
    requires
        grid_scanned(a, b),
    ensures
        same_targets(a, b),
{
    assert forall|i: int, j: int| 0 <= i < a.len() && 0 <= j < a[i].len() implies ((
    #[trigger] a[i][j]).state == State::Target) == (b[i][j].state == State::Target) by {
        assert(scanned(a[i][j], b[i][j]));
    }
}

/// A cell sees the target in one grid if it sees it in another with the
/// same targets.
pub proof fn lemma_sees_same_targets(a: Seq<Seq<Node>>, b: Seq<Seq<Node>>, p: (usize, usize))
    requires
        cells_wf(a),
        same_targets(a, b),
        inside(a, p),
    ensures
        sees_target(a, p) == sees_target(b, p),
{
    let around = neighbour_coords(a, p);
    assert(b[0].len() == a[0].len());
    assert(around == neighbour_coords(b, p));
    lemma_adjacent(a.len() as int, a[0].len() as int, p);
    assert(a[p.0 as int][p.1 as int].state == at(a, p).state);
    assert forall|k: int| 0 <= k < around.len() implies (at(a, #[trigger] around[k]).state
        == State::Target) == (at(b, around[k]).state == State::Target) by {
        let d = around[k];
        assert(a[d.0 as int].len() == a[0].len());
        assert((a[d.0 as int][d.1 as int].state == State::Target) == (b[d.0 as int][d.1 as int].state
            == State::Target));
    }
    if sees_target(a, p) && at(a, p).state != State::Target {
        let k = choose|k: int|
            0 <= k < around.len() && at(a, #[trigger] around[k]).state == State::Target;
        assert(at(b, around[k]).state == State::Target);
    }
    if sees_target(b, p) && at(b, p).state != State::Target {
        let k = choose|k: int|
            0 <= k < around.len() && at(b, #[trigger] around[k]).state == State::Target;
        assert(at(a, around[k]).state == State::Target);
    }
}

/// Looking at the neighbours of a frontier cell reaches the target if, and
/// only if, one of them is the target.
pub proof fn lemma_expand_finder(
    cells: Seq<Seq<Node>>,
    next: Seq<(usize, usize)>,
    c: (usize, usize),
    around: Seq<(usize, usize)>,
    k: int,
)
    requires
        0 <= k <= around.len(),
        forall|m: int| 0 <= m < around.len() ==> inside(cells, #[trigger] around[m]),
    ensures
        expand(cells, next, c, around, k).finder is Some <==> exists|m: int|
            k <= m < around.len() && at(cells, #[trigger] around[m]).state == State::Target,
    decreases around.len() - k,
{
    let target_ahead = |grid: Seq<Seq<Node>>, from: int|
        exists|m: int|
            from <= m < around.len() && at(grid, #[trigger] around[m]).state == State::Target;
    if k >= around.len() {
    } else if at(cells, around[k]).state == State::Target {
    } else if at(cells, around[k]).state == State::Empty {
        let d = around[k];
        let node = at(cells, d).visited_from(c.0, c.1);
        let visited = put(cells, d, node);
        assert forall|m: int| 0 <= m < around.len() implies inside(visited, #[trigger] around[m])
            && (at(visited, around[m]).state == State::Target) == (at(cells, around[m]).state
            == State::Target) by {
            assert(inside(cells, around[m]));
        }
        lemma_expand_finder(visited, next.push(d), c, around, k + 1);
        if target_ahead(visited, k + 1) {
            let m = choose|m: int|
                k + 1 <= m < around.len() && at(visited, #[trigger] around[m]).state
                    == State::Target;
            assert(at(cells, around[m]).state == State::Target);
        }
        if target_ahead(cells, k) {
            let m = choose|m: int|
                k <= m < around.len() && at(cells, #[trigger] around[m]).state == State::Target;
            assert(at(visited, around[m]).state == State::Target);
        }
    } else {
        lemma_expand_finder(cells, next, c, around, k + 1);
        if target_ahead(cells, k + 1) {
            let m = choose|m: int|
                k + 1 <= m < around.len() && at(cells, #[trigger] around[m]).state
                    == State::Target;
        }
        if target_ahead(cells, k) {
            let m = choose|m: int|
                k <= m < around.len() && at(cells, #[trigger] around[m]).state == State::Target;
            assert(m != k);
        }
    }
}

/// One generation reaches the target if, and only if, one of the frontier
/// cells sees it. The cell that reaches it is the first frontier cell that
/// sees it.
pub proof fn lemma_sweep_finder(
    cells: Seq<Seq<Node>>,
    frontier: Seq<(usize, usize)>,
    i: int,
    next: Seq<(usize, usize)>,
)
    requires
        cells_wf(cells),
        0 <= i <= frontier.len(),
        forall|m: int| 0 <= m < frontier.len() ==> inside(cells, #[trigger] frontier[m]),
        forall|m: int| 0 <= m < next.len() ==> inside(cells, #[trigger] next[m]),
    ensures
        sweep(cells, frontier, i, next).finder is Some <==> frontier_sees_target(cells, frontier, i),
        sweep(cells, frontier, i, next).finder matches Some(f) ==> sees_target(cells, f) && occurs(
            frontier,
            i,
            f,
        ),
    decreases frontier.len() - i,
{
    if i >= frontier.len() {
    } else if at(cells, frontier[i]).state == State::Target {
        assert(sees_target(cells, frontier[i]));
    } else {
        let c = frontier[i];
        let node = Node { active: false, ..at(cells, c) };
        let calm = deactivated(cells, c);
        let around = neighbour_coords(cells, c);
        lemma_put_wf(cells, c, node);
        lemma_adjacent(cells.len() as int, cells[0].len() as int, c);
        assert forall|m: int| 0 <= m < around.len() implies inside(calm, #[trigger] around[m])
            && at(calm, around[m]).state == at(cells, around[m]).state by {
            assert(around[m].0 < cells.len());
            assert(cells[around[m].0 as int].len() == cells[0].len());
            assert(inside(cells, around[m]));
        }
        lemma_same_shape_inside(cells, calm, next);
        lemma_expand_finder(calm, next, c, around, 0);
        lemma_expand(calm, next, c, around, 0);
        let e = expand(calm, next, c, around, 0);
        // The cell sees the target exactly if looking around it reaches the target.
        assert(e.finder is Some <==> sees_target(cells, c)) by {
            if e.finder is Some {
                let m = choose|m: int|
                    0 <= m < around.len() && at(calm, #[trigger] around[m]).state == State::Target;
                assert(at(cells, around[m]).state == State::Target);
            }
            if sees_target(cells, c) {
                let m = choose|m: int|
                    0 <= m < around.len() && at(cells, #[trigger] around[m]).state == State::Target;
                assert(at(calm, around[m]).state == State::Target);
            }
        }
        if e.finder is Some {
            assert(frontier[i] == c);
        } else {
            lemma_put_scanned_calm(cells, c);
            lemma_scanned_trans(cells, calm, e.cells);
            lemma_scanned_targets(cells, e.cells);
            lemma_same_shape_inside(cells, e.cells, frontier);
            lemma_same_shape_inside(cells, e.cells, e.next);
            lemma_sweep_finder(e.cells, frontier, i + 1, e.next);
            let s = sweep(e.cells, frontier, i + 1, e.next);
            if frontier_sees_target(e.cells, frontier, i + 1) {
                let m = choose|m: int|
                    i + 1 <= m < frontier.len() && sees_target(e.cells, #[trigger] frontier[m]);
                lemma_sees_same_targets(cells, e.cells, frontier[m]);
            }
            if frontier_sees_target(cells, frontier, i) {
                let m = choose|m: int|
                    i <= m < frontier.len() && sees_target(cells, #[trigger] frontier[m]);
                lemma_sees_same_targets(cells, e.cells, frontier[m]);
                assert(m != i);
            }
            match s.finder {
                Some(f) => {
                    let m = choose|m: int| i + 1 <= m < frontier.len() && (#[trigger] frontier[m]) == f;
                    lemma_sees_same_targets(cells, e.cells, f);
                },
                None => {},
            }
        }
    }
}

/// Taking a cell out of the frontier is something one generation may do.
pub proof fn lemma_put_scanned_calm(cells: Seq<Seq<Node>>, c: (usize, usize))
    requires
        inside(cells, c),
    ensures
        grid_scanned(cells, deactivated(cells, c)),
{
}

/// The cell at `d` of two grids of which one is what a generation made of
/// the other.
pub proof fn lemma_scanned_at(a: Seq<Seq<Node>>, b: Seq<Seq<Node>>, d: (usize, usize))
    requires
        grid_scanned(a, b),
        inside(a, d),
    ensures
        scanned(at(a, d), at(b, d)),
        inside(b, d),
{
    assert(scanned(a[d.0 as int][d.1 as int], b[d.0 as int][d.1 as int]));
}

/// The frontier for the next generation only grows, at its end. What
/// looking around one frontier cell adds to it are neighbours of that cell
/// that were empty and are now visited.
pub proof fn lemma_expand_next(
    cells: Seq<Seq<Node>>,
    next: Seq<(usize, usize)>,
    c: (usize, usize),
    around: Seq<(usize, usize)>,
    k: int,
)
    requires
        cells_wf(cells),
        0 <= k <= around.len(),
        forall|m: int| 0 <= m < around.len() ==> inside(cells, #[trigger] around[m]),
        forall|m: int| 0 <= m < next.len() ==> inside(cells, #[trigger] next[m]),
        inside(cells, c),
    ensures
        ({
            let e = expand(cells, next, c, around, k);
            &&& next.len() <= e.next.len()
            &&& forall|j: int| 0 <= j < next.len() ==> #[trigger] e.next[j] == next[j]
            &&& forall|j: int|
                next.len() <= j < e.next.len() ==> {
                    let d = #[trigger] e.next[j];
                    &&& at(cells, d).state == State::Empty
                    &&& at(e.cells, d).state == State::Visited
                    &&& occurs(around, k, d)
                }
        }),
    decreases around.len() - k,
{
    if k >= around.len() {
    } else if at(cells, around[k]).state == State::Target {
    } else if at(cells, around[k]).state == State::Empty {
        let d0 = around[k];
        let node = at(cells, d0).visited_from(c.0, c.1);
        let visited = put(cells, d0, node);
        let grown = next.push(d0);
        lemma_put_wf(cells, d0, node);
        lemma_same_shape_inside(cells, visited, around);
        assert forall|m: int| 0 <= m < grown.len() implies inside(visited, #[trigger] grown[m]) by {
            if m < next.len() {
                assert(inside(cells, next[m]));
            }
        }
        lemma_expand_next(visited, grown, c, around, k + 1);
        lemma_expand(visited, grown, c, around, k + 1);
        let e = expand(visited, grown, c, around, k + 1);
        assert forall|j: int| 0 <= j < next.len() implies #[trigger] e.next[j] == next[j] by {
            assert(e.next[j] == grown[j]);
        }
        assert forall|j: int| next.len() <= j < e.next.len() implies {
            let d = #[trigger] e.next[j];
            &&& at(cells, d).state == State::Empty
            &&& at(e.cells, d).state == State::Visited
            &&& occurs(around, k, d)
        } by {
            let d = e.next[j];
            if j == next.len() {
                assert(d == grown[j]);
                lemma_scanned_at(visited, e.cells, d0);
                assert(around[k] == d);
            } else {
                assert(at(visited, d).state == State::Empty);
                assert(occurs(around, k + 1, d));
                let m = choose|m: int| k + 1 <= m < around.len() && (#[trigger] around[m]) == d;
                assert(around[m] == d);
                assert(inside(cells, around[m]));
            }
        }
    } else {
        lemma_expand_next(cells, next, c, around, k + 1);
        let e = expand(cells, next, c, around, k + 1);
        assert forall|j: int| next.len() <= j < e.next.len() implies occurs(
            around,
            k,
            #[trigger] e.next[j],
        ) by {
            let d = e.next[j];
            assert(occurs(around, k + 1, d));
            let m = choose|m: int| k + 1 <= m < around.len() && (#[trigger] around[m]) == d;
            assert(around[m] == d);
        }
    }
}

/// The frontier for the next generation only grows, at its end. What one
/// generation adds to it are cells that were empty and are now visited.
pub proof fn lemma_sweep_next(
    cells: Seq<Seq<Node>>,
    frontier: Seq<(usize, usize)>,
    i: int,
    next: Seq<(usize, usize)>,
)
    requires
        cells_wf(cells),
        0 <= i <= frontier.len(),
        forall|m: int| 0 <= m < frontier.len() ==> inside(cells, #[trigger] frontier[m]),
        forall|m: int| 0 <= m < next.len() ==> inside(cells, #[trigger] next[m]),
    ensures
        ({
            let s = sweep(cells, frontier, i, next);
            &&& next.len() <= s.next.len()
            &&& forall|j: int| 0 <= j < next.len() ==> #[trigger] s.next[j] == next[j]
            &&& forall|j: int|
                next.len() <= j < s.next.len() ==> {
                    let d = #[trigger] s.next[j];
                    &&& inside(cells, d)
                    &&& at(cells, d).state == State::Empty
                    &&& at(s.cells, d).state == State::Visited
                }
        }),
    decreases frontier.len() - i,
{
    if i >= frontier.len() {
    } else if at(cells, frontier[i]).state == State::Target {
    } else {
        let c = frontier[i];
        let node = Node { active: false, ..at(cells, c) };
        let calm = deactivated(cells, c);
        let around = neighbour_coords(cells, c);
        lemma_put_wf(cells, c, node);
        lemma_put_scanned_calm(cells, c);
        lemma_adjacent(cells.len() as int, cells[0].len() as int, c);
        assert forall|m: int| 0 <= m < around.len() implies inside(calm, #[trigger] around[m]) by {
            assert(around[m].0 < cells.len());
            assert(cells[around[m].0 as int].len() == cells[0].len());
        }
        lemma_same_shape_inside(cells, calm, next);
        lemma_expand_next(calm, next, c, around, 0);
        lemma_expand(calm, next, c, around, 0);
        let e = expand(calm, next, c, around, 0);
        lemma_scanned_trans(cells, calm, e.cells);
        lemma_same_shape_inside(calm, cells, e.next);
        assert forall|j: int| next.len() <= j < e.next.len() implies {
            let d = #[trigger] e.next[j];
            &&& inside(cells, d)
            &&& at(cells, d).state == State::Empty
            &&& at(e.cells, d).state == State::Visited
        } by {
            let d = e.next[j];
            assert(inside(cells, d));
            lemma_scanned_at(cells, calm, d);
        }
        if e.finder is None {
            lemma_same_shape_inside(cells, e.cells, frontier);
            lemma_same_shape_inside(cells, e.cells, e.next);
            lemma_sweep_next(e.cells, frontier, i + 1, e.next);
            lemma_sweep(e.cells, frontier, i + 1, e.next);
            let s = sweep(e.cells, frontier, i + 1, e.next);
            assert forall|j: int| 0 <= j < next.len() implies #[trigger] s.next[j] == next[j] by {
                assert(s.next[j] == e.next[j]);
            }
            assert forall|j: int| next.len() <= j < s.next.len() implies {
                let d = #[trigger] s.next[j];
                &&& inside(cells, d)
                &&& at(cells, d).state == State::Empty
                &&& at(s.cells, d).state == State::Visited
            } by {
                let d = s.next[j];
                if j < e.next.len() {
                    assert(d == e.next[j]);
                    lemma_scanned_at(e.cells, s.cells, d);
                } else {
                    lemma_scanned_at(cells, e.cells, d);
                }
            }
        }
    }
}

/// The cell at `d` was discovered in this generation from one of the
/// frontier cells `frontier[i..]`, which is now its parent and to which it
/// is a neighbour.
pub open spec fn discovered_by(
    cells: Seq<Seq<Node>>,
    after: Seq<Seq<Node>>,
    frontier: Seq<(usize, usize)>,
    i: int,
    d: (usize, usize),
) -> bool {
    exists|m: int|
        i <= m < frontier.len() && at(after, d).parent_coords == Some(#[trigger] frontier[m])
            && occurs(neighbour_coords(cells, frontier[m]), 0, d)
}

/// A cell that stops being empty while the neighbours of a frontier cell
/// are looked at is one of these neighbours, has the frontier cell as its
/// parent and is in the next frontier. If the target was not among them,
/// none of these neighbours is empty afterwards.
pub proof fn lemma_expand_discovers(
    cells: Seq<Seq<Node>>,
    next: Seq<(usize, usize)>,
    c: (usize, usize),
    around: Seq<(usize, usize)>,
    k: int,
)
    requires
        cells_wf(cells),
        0 <= k <= around.len(),
        forall|m: int| 0 <= m < around.len() ==> inside(cells, #[trigger] around[m]),
        forall|m: int| 0 <= m < next.len() ==> inside(cells, #[trigger] next[m]),
        inside(cells, c),
    ensures
        ({
            let e = expand(cells, next, c, around, k);
            &&& forall|d: (usize, usize)|
                inside(cells, d) && at(cells, d).state == State::Empty && (#[trigger] at(
                    e.cells,
                    d,
                )).state != State::Empty ==> {
                    &&& at(e.cells, d).parent_coords == Some(c)
                    &&& occurs(around, k, d)
                    &&& occurs(e.next, next.len() as int, d)
                }
            &&& e.finder is None ==> forall|m: int|
                k <= m < around.len() ==> at(e.cells, #[trigger] around[m]).state != State::Empty
        }),
    decreases around.len() - k,
{
    if k >= around.len() {
    } else if at(cells, around[k]).state == State::Target {
    } else if at(cells, around[k]).state == State::Empty {
        let d0 = around[k];
        let node = at(cells, d0).visited_from(c.0, c.1);
        let visited = put(cells, d0, node);
        let grown = next.push(d0);
        lemma_put_wf(cells, d0, node);
        lemma_same_shape_inside(cells, visited, around);
        assert forall|m: int| 0 <= m < grown.len() implies inside(visited, #[trigger] grown[m]) by {
            if m < next.len() {
                assert(inside(cells, next[m]));
            }
        }
        lemma_expand_discovers(visited, grown, c, around, k + 1);
        lemma_expand_next(visited, grown, c, around, k + 1);
        lemma_expand(visited, grown, c, around, k + 1);
        let e = expand(visited, grown, c, around, k + 1);
        lemma_scanned_at(visited, e.cells, d0);
        assert(e.next[next.len() as int] == grown[next.len() as int]);
        assert forall|d: (usize, usize)|
            inside(cells, d) && at(cells, d).state == State::Empty && (#[trigger] at(
                e.cells,
                d,
            )).state != State::Empty implies {
            &&& at(e.cells, d).parent_coords == Some(c)
            &&& occurs(around, k, d)
            &&& occurs(e.next, next.len() as int, d)
        } by {
            if d == d0 {
                assert(around[k] == d);
                assert(e.next[next.len() as int] == d);
            } else {
                assert(at(visited, d) == at(cells, d));
                let m = choose|m: int| k + 1 <= m < around.len() && (#[trigger] around[m]) == d;
                assert(around[m] == d);
                let j = choose|j: int| grown.len() <= j < e.next.len() && (#[trigger] e.next[j]) == d;
                assert(e.next[j] == d);
            }
        }
        if e.finder is None {
            assert forall|m: int| k <= m < around.len() implies at(
                e.cells,
                #[trigger] around[m],
            ).state != State::Empty by {
                if m == k {
                }
            }
        }
    } else {
        lemma_expand_discovers(cells, next, c, around, k + 1);
        lemma_expand(cells, next, c, around, k + 1);
        let e = expand(cells, next, c, around, k + 1);
        lemma_scanned_at(cells, e.cells, around[k]);
        assert forall|d: (usize, usize)|
            inside(cells, d) && at(cells, d).state == State::Empty && (#[trigger] at(
                e.cells,
                d,
            )).state != State::Empty implies occurs(around, k, d) by {
            let m = choose|m: int| k + 1 <= m < around.len() && (#[trigger] around[m]) == d;
            assert(around[m] == d);
        }
        if e.finder is None {
            assert forall|m: int| k <= m < around.len() implies at(
                e.cells,
                #[trigger] around[m],
            ).state != State::Empty by {
                if m == k {
                }
            }
        }
    }
}

/// A cell that stops being empty in one generation was discovered from a
/// frontier cell and is in the next frontier. If the target was not reached,
/// no neighbour of a frontier cell is empty afterwards.
pub proof fn lemma_sweep_discovers(
    cells: Seq<Seq<Node>>,
    frontier: Seq<(usize, usize)>,
    i: int,
    next: Seq<(usize, usize)>,
)
    requires
        cells_wf(cells),
        0 <= i <= frontier.len(),
        forall|m: int| 0 <= m < frontier.len() ==> inside(cells, #[trigger] frontier[m]),
        forall|m: int| 0 <= m < next.len() ==> inside(cells, #[trigger] next[m]),
    ensures
        ({
            let s = sweep(cells, frontier, i, next);
            &&& forall|d: (usize, usize)|
                inside(cells, d) && at(cells, d).state == State::Empty && (#[trigger] at(
                    s.cells,
                    d,
                )).state != State::Empty ==> {
                    &&& discovered_by(cells, s.cells, frontier, i, d)
                    &&& occurs(s.next, next.len() as int, d)
                }
            &&& s.finder is None ==> forall|m: int, k: int|
                i <= m < frontier.len() && 0 <= k < neighbour_coords(cells, frontier[m]).len()
                    ==> at(s.cells, #[trigger] neighbour_coords(cells, frontier[m])[k]).state
                    != State::Empty
        }),
    decreases frontier.len() - i,
{
    if i >= frontier.len() {
    } else if at(cells, frontier[i]).state == State::Target {
    } else {
        let c = frontier[i];
        let node = Node { active: false, ..at(cells, c) };
        let calm = deactivated(cells, c);
        let around = neighbour_coords(cells, c);
        lemma_put_wf(cells, c, node);
        lemma_put_scanned_calm(cells, c);
        lemma_adjacent(cells.len() as int, cells[0].len() as int, c);
        assert forall|m: int| 0 <= m < around.len() implies inside(calm, #[trigger] around[m]) by {
            assert(around[m].0 < cells.len());
            assert(cells[around[m].0 as int].len() == cells[0].len());
        }
        lemma_same_shape_inside(cells, calm, next);
        lemma_expand_discovers(calm, next, c, around, 0);
        lemma_expand_next(calm, next, c, around, 0);
        lemma_expand(calm, next, c, around, 0);
        let e = expand(calm, next, c, around, 0);
        lemma_scanned_trans(cells, calm, e.cells);
        lemma_same_shape_inside(calm, cells, e.next);
        // What looking around `c` discovered.
        assert forall|d: (usize, usize)|
            inside(cells, d) && at(cells, d).state == State::Empty && (#[trigger] at(
                e.cells,
                d,
            )).state != State::Empty implies {
            &&& at(e.cells, d).parent_coords == Some(c)
            &&& occurs(around, 0, d)
            &&& occurs(e.next, next.len() as int, d)
        } by {
            lemma_scanned_at(cells, calm, d);
        }
        if e.finder is Some {
            assert forall|d: (usize, usize)|
                inside(cells, d) && at(cells, d).state == State::Empty && (#[trigger] at(
                    e.cells,
                    d,
                )).state != State::Empty implies discovered_by(cells, e.cells, frontier, i, d) by {
                assert(frontier[i] == c);
            }
        } else {
            lemma_same_shape_inside(cells, e.cells, frontier);
            lemma_same_shape_inside(cells, e.cells, e.next);
            lemma_sweep_discovers(e.cells, frontier, i + 1, e.next);
            lemma_sweep_next(e.cells, frontier, i + 1, e.next);
            lemma_sweep(e.cells, frontier, i + 1, e.next);
            let s = sweep(e.cells, frontier, i + 1, e.next);
            assert(e.cells[0].len() == cells[0].len());
            assert forall|d: (usize, usize)|
                inside(cells, d) && at(cells, d).state == State::Empty && (#[trigger] at(
                    s.cells,
                    d,
                )).state != State::Empty implies {
                &&& discovered_by(cells, s.cells, frontier, i, d)
                &&& occurs(s.next, next.len() as int, d)
            } by {
                lemma_scanned_at(cells, e.cells, d);
                lemma_scanned_at(e.cells, s.cells, d);
                if at(e.cells, d).state != State::Empty {
                    assert(frontier[i] == c);
                    let j = choose|j: int| next.len() <= j < e.next.len() && (#[trigger] e.next[j]) == d;
                    assert(s.next[j] == e.next[j]);
                } else {
                    let m = choose|m: int|
                        i + 1 <= m < frontier.len() && at(s.cells, d).parent_coords == Some(
                            #[trigger] frontier[m],
                        ) && occurs(neighbour_coords(e.cells, frontier[m]), 0, d);
                    assert(neighbour_coords(e.cells, frontier[m]) == neighbour_coords(
                        cells,
                        frontier[m],
                    ));
                    let j = choose|j: int|
                        e.next.len() <= j < s.next.len() && (#[trigger] s.next[j]) == d;
                    assert(s.next[j] == d);
                }
            }
            if s.finder is None {
                assert forall|m: int, k: int|
                    i <= m < frontier.len() && 0 <= k < neighbour_coords(cells, frontier[m]).len()
                    implies at(s.cells, #[trigger] neighbour_coords(cells, frontier[m])[k]).state
                    != State::Empty by {
                    let d = neighbour_coords(cells, frontier[m])[k];
                    if m == i {
                        assert(d == around[k]);
                        assert(at(e.cells, around[k]).state != State::Empty);
                        assert(inside(calm, around[k]));
                        lemma_scanned_at(e.cells, s.cells, d);
                    } else {
                        assert(neighbour_coords(e.cells, frontier[m]) == neighbour_coords(
                            cells,
                            frontier[m],
                        ));
                    }
                }
            }
        }
    }
}

} // verus!
