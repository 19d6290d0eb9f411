//! Clearing a grid for a new search: what a search left behind goes, what
//! was placed on the grid stays.
//!
//! The grid is cleared cell by cell, row after row. This module says what
//! the grid looks like after any number of cells, and proves that clearing
//! one more cell leads from one such grid to the next.
use vstd::prelude::*;
use crate::model::at;
use crate::model::cells_wf;
use crate::model::inside;
use crate::model::is_not;
use crate::model::lemma_filter_push;
use crate::model::put;
use crate::model::without;
use crate::model::GridView;
use crate::node::Node;
use crate::node::State;

verus! {

/// A cell after clearing: a visited or path cell is empty again, every
/// other cell keeps its state. No cell has a parent, and only the start is
/// active.
pub open spec fn cleared_node(node: Node) -> Node {
    Node {
        active: node.state == State::Start,
        parent_coords: None,
        state: if node.state == State::Visited || node.state == State::Path {
            State::Empty
        } else {
            node.state
        },
        ..node
    }
}

/// `c` comes before `(i, j)` when the grid is read row after row.
pub open spec fn before(c: (usize, usize), i: int, j: int) -> bool {
    c.0 < i || (c.0 == i && c.1 < j)
}

/// The test that the coordinates from `(i, j)` on pass.
pub open spec fn from_on(i: int, j: int) -> spec_fn((usize, usize)) -> bool {
    |c: (usize, usize)| !before(c, i, j)
}

/// The coordinates of the start cells among the first `n` cells of row `x`.
pub open spec fn row_starts(row: Seq<Node>, x: usize, n: int) -> Seq<(usize, usize)>
    decreases n,
{
    if n <= 0 {
        Seq::empty()
    } else if row[n - 1].state == State::Start {
        row_starts(row, x, n - 1).push((x, (n - 1) as usize))
    } else {
        row_starts(row, x, n - 1)
    }
}

/// The coordinates of the start cells in the first `m` rows, row after row.
pub open spec fn starts(cells: Seq<Seq<Node>>, m: int) -> Seq<(usize, usize)>
    decreases m,
{
    if m <= 0 {
        Seq::empty()
    } else {
        starts(cells, m - 1) + row_starts(cells[m - 1], (m - 1) as usize, cells[m - 1].len() as int)
    }
}

/// The grid when the cells before `(i, j)` have been cleared: those cells
/// are cleared and the others are as they were. The frontier holds what is
/// left of the old frontier, which is its entries from `(i, j)` on, and
/// after them the start cells found so far.
pub open spec fn clear_progress(g: GridView, i: int, j: int) -> GridView {
    GridView {
        cells: Seq::new(
            g.cells.len(),
            |a: int|
                Seq::new(
                    g.cells[a].len(),
                    |b: int|
                        if a < i || (a == i && b < j) {
                            cleared_node(g.cells[a][b])
                        } else {
                            g.cells[a][b]
                        },
                ),
        ),
        frontier: g.frontier.filter(from_on(i, j)) + starts(g.cells, i) + row_starts(
            g.cells[i],
            i as usize,
            j,
        ),
    }
}

/// Clearing the cell at `c`: it leaves the frontier and forgets its parent.
/// A start cell then joins the frontier again, and a visited or path cell
/// becomes empty.
pub open spec fn clear_cell(g: GridView, c: (usize, usize)) -> GridView {
    let calm = g.deactivate(c).without_parent(c);
    match at(calm.cells, c).state {
        State::Start => calm.activate(c),
        State::Target | State::Wall | State::Empty => calm,
        _ => calm.with_state(c, State::Empty),
    }
}

impl GridView {
    /// The grid cleared for a new search. Every cell is cleared, and the
    /// frontier holds the start cells, row after row.
    pub open spec fn cleared(self) -> GridView {
        GridView {
            cells: Seq::new(
                self.cells.len(),
                |a: int| Seq::new(self.cells[a].len(), |b: int| cleared_node(self.cells[a][b])),
            ),
            frontier: starts(self.cells, self.cells.len() as int),
        }
    }
}

/// A filter that every entry passes changes nothing.
pub proof fn lemma_filter_all<A>(s: Seq<A>, pred: spec_fn(A) -> bool)
    requires
        forall|k: int| 0 <= k < s.len() ==> pred(#[trigger] s[k]),
    ensures
        s.filter(pred) == s,
    decreases s.len(),
{
    if s.len() == 0 {
        lemma_filter_push(s, arbitrary(), pred);
        assert(s =~= Seq::<A>::empty());
    } else {
        let front = s.drop_last();
        assert(s =~= front.push(s.last()));
        lemma_filter_push(front, s.last(), pred);
        assert forall|k: int| 0 <= k < front.len() implies pred(#[trigger] front[k]) by {
            assert(front[k] == s[k]);
        }
        lemma_filter_all(front, pred);
    }
}

/// A filter that no entry passes leaves nothing.
pub proof fn lemma_filter_none<A>(s: Seq<A>, pred: spec_fn(A) -> bool)
    requires
        forall|k: int| 0 <= k < s.len() ==> !pred(#[trigger] s[k]),
    ensures
        s.filter(pred) == Seq::<A>::empty(),
    decreases s.len(),
{
    if s.len() == 0 {
        lemma_filter_push(s, arbitrary(), pred);
        assert(s =~= Seq::<A>::empty());
    } else {
        let front = s.drop_last();
        assert(s =~= front.push(s.last()));
        lemma_filter_push(front, s.last(), pred);
        assert forall|k: int| 0 <= k < front.len() implies !pred(#[trigger] front[k]) by {
            assert(front[k] == s[k]);
        }
        lemma_filter_none(front, pred);
    }
}

/// Filtering by `first` and then by `second` is filtering by `both`, if on
/// the entries of the sequence `both` is the two together.
pub proof fn lemma_filter_twice<A>(
    s: Seq<A>,
    first: spec_fn(A) -> bool,
    second: spec_fn(A) -> bool,
    both: spec_fn(A) -> bool,
)
    requires
        forall|k: int| 0 <= k < s.len() ==> both(#[trigger] s[k]) == (first(s[k]) && second(s[k])),
    ensures
        s.filter(first).filter(second) == s.filter(both),
    decreases s.len(),
{
    if s.len() == 0 {
        lemma_filter_push(s, arbitrary(), first);
        lemma_filter_push(s, arbitrary(), second);
        lemma_filter_push(s, arbitrary(), both);
        assert(s =~= Seq::<A>::empty());
    } else {
        let front = s.drop_last();
        let last = s.last();
        assert(s =~= front.push(last));
        assert(both(s[s.len() - 1]) == (first(last) && second(last)));
        lemma_filter_push(front, last, first);
        lemma_filter_push(front, last, both);
        lemma_filter_push(front.filter(first), last, second);
        assert forall|k: int| 0 <= k < front.len() implies both(#[trigger] front[k]) == (first(
            front[k],
        ) && second(front[k])) by {
            assert(front[k] == s[k]);
        }
        lemma_filter_twice(front, first, second, both);
    }
}

/// The start cells found in the first `n` cells of row `x` lie in that
/// row, before column `n`.
pub proof fn lemma_row_starts(row: Seq<Node>, x: usize, n: int)
    requires
        n <= usize::MAX,
    ensures
        forall|k: int|
            0 <= k < row_starts(row, x, n).len() ==> {
                let c = #[trigger] row_starts(row, x, n)[k];
                c.0 == x && c.1 < n
            },
    decreases n,
{
    if n > 0 {
        lemma_row_starts(row, x, n - 1);
        let shorter = row_starts(row, x, n - 1);
        assert forall|k: int| 0 <= k < row_starts(row, x, n).len() implies {
            let c = #[trigger] row_starts(row, x, n)[k];
            c.0 == x && c.1 < n
        } by {
            if k < shorter.len() {
                assert(row_starts(row, x, n)[k] == shorter[k]);
            }
        }
    }
}

/// The start cells found in the first `m` rows lie in those rows.
pub proof fn lemma_starts(cells: Seq<Seq<Node>>, m: int)
    requires
        cells_wf(cells),
        m <= cells.len(),
    ensures
        forall|k: int| 0 <= k < starts(cells, m).len() ==> (#[trigger] starts(cells, m)[k]).0 < m,
    decreases m,
{
    if m > 0 {
        lemma_starts(cells, m - 1);
        let earlier = starts(cells, m - 1);
        let row = row_starts(cells[m - 1], (m - 1) as usize, cells[m - 1].len() as int);
        assert(cells[m - 1].len() == cells[0].len());
        lemma_row_starts(cells[m - 1], (m - 1) as usize, cells[m - 1].len() as int);
        assert forall|k: int| 0 <= k < starts(cells, m).len() implies (#[trigger] starts(
            cells,
            m,
        )[k]).0 < m by {
            if k < earlier.len() {
                assert(starts(cells, m)[k] == earlier[k]);
            } else {
                assert(starts(cells, m)[k] == row[k - earlier.len()]);
            }
        }
    }
}

/// Before the first cell is cleared the grid is as it was.
pub proof fn lemma_clear_begin(g: GridView)
    requires
        g.wf(),
    ensures
        clear_progress(g, 0, 0) == g,
{
    let p = clear_progress(g, 0, 0);
    assert(p.cells.len() == g.cells.len());
    assert forall|a: int| 0 <= a < g.cells.len() implies p.cells[a] == g.cells[a] by {
        assert(p.cells[a] =~= g.cells[a]);
    }
    assert(p.cells =~= g.cells);
    lemma_filter_all(g.frontier, from_on(0, 0));
    assert(p.frontier =~= g.frontier);
}

/// When the last cell of a row is cleared the next row begins.
pub proof fn lemma_clear_row(g: GridView, i: int)
    requires
        g.wf(),
        0 <= i < g.cells.len(),
    ensures
        clear_progress(g, i, g.cells[0].len() as int) == clear_progress(g, i + 1, 0),
{
    let w = g.cells[0].len() as int;
    let p = clear_progress(g, i, w);
    let q = clear_progress(g, i + 1, 0);
    assert(g.cells[i].len() == w);
    assert forall|a: int| 0 <= a < g.cells.len() implies p.cells[a] == q.cells[a] by {
        assert(g.cells[a].len() == w);
        assert(p.cells[a] =~= q.cells[a]);
    }
    assert(p.cells =~= q.cells);
    assert(g.frontier.filter(from_on(i, w)) == g.frontier.filter(from_on(i + 1, 0))) by {
        let unit = |c: (usize, usize)| true;
        assert forall|k: int| 0 <= k < g.frontier.len() implies from_on(i + 1, 0)(
            #[trigger] g.frontier[k],
        ) == (from_on(i, w)(g.frontier[k]) && unit(g.frontier[k])) by {
            let c = g.frontier[k];
            assert(inside(g.cells, c));
            assert(g.cells[c.0 as int].len() == w);
        }
        lemma_filter_twice(g.frontier, from_on(i, w), unit, from_on(i + 1, 0));
        lemma_filter_all(g.frontier.filter(from_on(i, w)), unit);
    }
    assert(p.frontier =~= q.frontier);
}

/// When the last row is cleared the grid is cleared.
pub proof fn lemma_clear_end(g: GridView)
    requires
        g.wf(),
    ensures
        clear_progress(g, g.cells.len() as int, 0) == g.cleared(),
{
    let h = g.cells.len() as int;
    let p = clear_progress(g, h, 0);
    let q = g.cleared();
    assert forall|a: int| 0 <= a < g.cells.len() implies p.cells[a] == q.cells[a] by {
        assert(p.cells[a] =~= q.cells[a]);
    }
    assert(p.cells =~= q.cells);
    assert forall|k: int| 0 <= k < g.frontier.len() implies !from_on(h, 0)(
        #[trigger] g.frontier[k],
    ) by {
        assert(inside(g.cells, g.frontier[k]));
    }
    lemma_filter_none(g.frontier, from_on(h, 0));
    assert(p.frontier =~= q.frontier);
}

/// What clearing one cell does to the cells: the cell is cleared, and no
/// other cell changes.
pub proof fn lemma_clear_cell_cells(g: GridView, c: (usize, usize))
    requires
        inside(g.cells, c),
    ensures
        clear_cell(g, c).cells == put(g.cells, c, cleared_node(at(g.cells, c))),
{
    let x = c.0 as int;
    let node = cleared_node(at(g.cells, c));
    let done = clear_cell(g, c).cells;
    assert(done[x] =~= g.cells[x].update(c.1 as int, node));
    assert(done =~= put(g.cells, c, node));
}

/// What clearing one cell does to the frontier: every entry for the cell
/// goes, and a start cell comes back at the end.
pub proof fn lemma_clear_cell_frontier(g: GridView, c: (usize, usize))
    requires
        inside(g.cells, c),
    ensures
        clear_cell(g, c).frontier == if at(g.cells, c).state == State::Start {
            without(g.frontier, c).push(c)
        } else {
            without(g.frontier, c)
        },
{
}

/// Clearing the cell at `(i, j)` of a grid whose cells before `(i, j)` are
/// cleared gives the grid whose cells before `(i, j + 1)` are cleared.
pub proof fn lemma_clear_cell(g: GridView, i: int, j: int)
    requires
        g.wf(),
        0 <= i < g.cells.len(),
        0 <= j < g.cells[0].len(),
    ensures
        clear_cell(clear_progress(g, i, j), (i as usize, j as usize)) == clear_progress(g, i, j + 1),
{
    let c = (i as usize, j as usize);
    let p = clear_progress(g, i, j);
    let q = clear_progress(g, i, j + 1);
    let r = clear_cell(p, c);
    assert(g.cells[i].len() == g.cells[0].len());
    assert(p.cells[i][j] == g.cells[i][j]);
    assert(r.cells == q.cells) by {
        lemma_clear_cell_cells(p, c);
        let node = cleared_node(g.cells[i][j]);
        assert forall|a: int| 0 <= a < g.cells.len() implies put(p.cells, c, node)[a]
            == q.cells[a] by {
            assert(g.cells[a].len() == g.cells[0].len());
            assert(put(p.cells, c, node)[a] =~= q.cells[a]);
        }
        assert(put(p.cells, c, node) =~= q.cells);
    }
    assert(r.frontier == q.frontier) by {
        lemma_clear_cell_frontier(p, c);
        lemma_clear_frontier(g, i, j);
    }
}

/// Taking `(i, j)` out of what is left of the old frontier and of the start
/// cells found so far takes it out of the first and leaves the second.
proof fn lemma_clear_rest(g: GridView, i: int, j: int)
    requires
        g.wf(),
        0 <= i < g.cells.len(),
        0 <= j < g.cells[0].len(),
    ensures
        ({
            let c = (i as usize, j as usize);
            let found = starts(g.cells, i) + row_starts(g.cells[i], i as usize, j);
            &&& without(g.frontier.filter(from_on(i, j)), c) == g.frontier.filter(from_on(i, j + 1))
            &&& without(found, c) == found
        }),
{
    let c = (i as usize, j as usize);
    lemma_filter_twice(g.frontier, from_on(i, j), is_not(c), from_on(i, j + 1));
    let found = starts(g.cells, i) + row_starts(g.cells[i], i as usize, j);
    lemma_starts(g.cells, i);
    lemma_row_starts(g.cells[i], i as usize, j);
    assert forall|k: int| 0 <= k < found.len() implies is_not(c)(#[trigger] found[k]) by {
        let early = starts(g.cells, i);
        if k < early.len() {
            assert(found[k] == early[k]);
        } else {
            assert(found[k] == row_starts(g.cells[i], i as usize, j)[k - early.len()]);
        }
    }
    lemma_filter_all(found, is_not(c));
}

/// Taking `c` out of three sequences in a row, when that changes the first
/// to `later` and leaves the other two as they are.
proof fn lemma_without_three(
    kept: Seq<(usize, usize)>,
    early: Seq<(usize, usize)>,
    row: Seq<(usize, usize)>,
    later: Seq<(usize, usize)>,
    c: (usize, usize),
)
    requires
        without(kept, c) == later,
        without(early + row, c) == early + row,
    ensures
        without(kept + early + row, c) == later + early + row,
        (later + early + row).push(c) == later + early + row.push(c),
{
    lemma_concat(kept, early, row);
    Seq::filter_distributes_over_add(kept, early + row, is_not(c));
    lemma_concat(later, early, row);
    lemma_concat(later, early, row.push(c));
    assert((later + (early + row)).push(c) =~= later + (early + row.push(c)));
    assert((early + row).push(c) =~= early + row.push(c));
}

/// Joining three sequences gives the same whichever two are joined first.
proof fn lemma_concat<A>(a: Seq<A>, b: Seq<A>, c: Seq<A>)
    ensures
        a + b + c == a + (b + c),
{
    assert(a + b + c =~= a + (b + c));
}

/// Taking `(i, j)` out of the frontier of a grid whose cells before
/// `(i, j)` are cleared leaves the old entries after `(i, j)` and the start
/// cells found so far.
pub proof fn lemma_clear_frontier(g: GridView, i: int, j: int)
    requires
        g.wf(),
        0 <= i < g.cells.len(),
        0 <= j < g.cells[0].len(),
    ensures
        ({
            let c = (i as usize, j as usize);
            let rest = without(clear_progress(g, i, j).frontier, c);
            clear_progress(g, i, j + 1).frontier == if g.cells[i][j].state == State::Start {
                rest.push(c)
            } else {
                rest
            }
        }),
{
    let c = (i as usize, j as usize);
    let kept = g.frontier.filter(from_on(i, j));
    let early = starts(g.cells, i);
    let row = row_starts(g.cells[i], i as usize, j);
    let later = g.frontier.filter(from_on(i, j + 1));
    lemma_clear_rest(g, i, j);
    lemma_without_three(kept, early, row, later, c);
}

} // verus!
