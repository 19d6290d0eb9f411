use pathfinder::matrix::solve;
use pathfinder::matrix::Matrix;
use pathfinder::matrix::Solve;
use pathfinder::node::Node;
use pathfinder::node::State;

fn rows_of(matrix: &Matrix) -> Vec<Vec<Node>> {
    matrix.clone().into_rows()
}

fn count_state(matrix: &Matrix, state: State) -> usize {
    let mut n = 0;
    for row in rows_of(matrix) {
        for node in row {
            if node.state == state {
                n += 1;
            }
        }
    }
    n
}

fn coords_of(nodes: &Vec<Node>) -> Vec<(usize, usize)> {
    let mut v = vec![];
    for n in nodes {
        v.push((n.x, n.y));
    }
    v
}

fn distance(a: (usize, usize), b: (usize, usize)) -> usize {
    let dx = if a.0 > b.0 { a.0 - b.0 } else { b.0 - a.0 };
    let dy = if a.1 > b.1 { a.1 - b.1 } else { b.1 - a.1 };
    dx + dy
}

fn open_grid(height: usize, width: usize, start: (usize, usize), target: (usize, usize)) -> Matrix {
    let mut m = Matrix::new(height, width);
    m.set_state(start.0, start.1, State::Start);
    m.set_active(start.0, start.1);
    m.set_state(target.0, target.1, State::Target);
    m
}

fn steps_to_stop(matrix: &mut Matrix) -> usize {
    let mut steps = 0;
    loop {
        steps += 1;
        assert!(steps <= 10_000);
        if matrix.step() == Solve::Stop {
            return steps;
        }
    }
}

#[test]
fn new_grid_has_fresh_cells_and_an_empty_frontier() {
    let m = Matrix::new(3, 4);
    assert_eq!(m.height(), 3);
    assert_eq!(m.width(), 4);
    assert!(m.frontier().is_empty());
    let rows = m.into_rows();
    assert_eq!(rows.len(), 3);
    for (i, row) in rows.iter().enumerate() {
        assert_eq!(row.len(), 4);
        for (j, node) in row.iter().enumerate() {
            assert_eq!(*node, Node::new(i, j));
        }
    }
}

#[test]
fn smallest_grid_has_one_cell_without_neighbours() {
    let m = Matrix::new(1, 1);
    assert_eq!(m.height(), 1);
    assert_eq!(m.width(), 1);
    assert!(m.neighbours(0, 0).is_empty());
    assert_eq!(m.state(0, 0), State::Empty);
}

#[test]
fn neighbours_come_in_the_order_up_down_left_right() {
    let m = Matrix::new(3, 3);
    assert_eq!(coords_of(&m.neighbours(1, 1)), vec![(0, 1), (2, 1), (1, 0), (1, 2)]);
}

#[test]
fn neighbours_of_corners_and_edges_stay_in_the_grid() {
    let m = Matrix::new(3, 4);
    assert_eq!(coords_of(&m.neighbours(0, 0)), vec![(1, 0), (0, 1)]);
    assert_eq!(coords_of(&m.neighbours(0, 3)), vec![(1, 3), (0, 2)]);
    assert_eq!(coords_of(&m.neighbours(2, 0)), vec![(1, 0), (2, 1)]);
    assert_eq!(coords_of(&m.neighbours(2, 3)), vec![(1, 3), (2, 2)]);
    assert_eq!(coords_of(&m.neighbours(0, 1)), vec![(1, 1), (0, 0), (0, 2)]);
    assert_eq!(coords_of(&m.neighbours(1, 0)), vec![(0, 0), (2, 0), (1, 1)]);
    assert_eq!(coords_of(&m.neighbours(2, 2)), vec![(1, 2), (2, 1), (2, 3)]);
    assert_eq!(coords_of(&m.neighbours(1, 3)), vec![(0, 3), (2, 3), (1, 2)]);
}

#[test]
fn neighbours_of_a_position_beside_the_grid_are_the_cells_next_to_it() {
    let m = Matrix::new(3, 3);
    assert_eq!(coords_of(&m.neighbours(3, 1)), vec![(2, 1)]);
    assert_eq!(coords_of(&m.neighbours(1, 3)), vec![(1, 2)]);
    assert!(m.neighbours(3, 3).is_empty());
    assert!(m.neighbours(9, 9).is_empty());
    assert!(m.neighbours(usize::MAX, 0).is_empty());
    assert!(m.neighbours(0, usize::MAX).is_empty());
}

#[test]
fn neighbours_are_the_cells_as_they_are() {
    let mut m = Matrix::new(2, 2);
    m.set_state(0, 1, State::Wall);
    m.set_active(1, 0);
    let nb = m.neighbours(0, 0);
    assert_eq!(nb.len(), 2);
    assert_eq!(nb[0], Node { x: 1, y: 0, active: true, state: State::Empty, parent_coords: None });
    assert_eq!(nb[1], Node { x: 0, y: 1, active: false, state: State::Wall, parent_coords: None });
}

#[test]
fn neighbours_are_at_most_four_inside_and_distinct() {
    let m = Matrix::new(4, 5);
    for i in 0..4 {
        for j in 0..5 {
            let nb = coords_of(&m.neighbours(i, j));
            assert!(nb.len() <= 4);
            for (k, c) in nb.iter().enumerate() {
                assert!(c.0 < 4 && c.1 < 5);
                assert_eq!(distance(*c, (i, j)), 1);
                for d in nb.iter().skip(k + 1) {
                    assert_ne!(c, d);
                }
            }
            let twice = coords_of(&m.neighbours(i, j));
            assert_eq!(nb, twice);
        }
    }
}

#[test]
fn set_active_appends_to_the_frontier_and_flags_the_cell() {
    let mut m = Matrix::new(2, 3);
    m.set_active(1, 2);
    m.set_active(0, 0);
    assert_eq!(*m.frontier(), vec![(1, 2), (0, 0)]);
    assert!(m.node(1, 2).active);
    assert!(m.node(0, 0).active);
    assert!(!m.node(0, 1).active);
    assert_eq!(m.state(1, 2), State::Empty);
}

#[test]
fn set_inactive_removes_every_entry_for_the_cell_and_keeps_the_order() {
    let mut m = Matrix::new(2, 3);
    m.set_active(0, 0);
    m.set_active(1, 1);
    m.set_active(0, 0);
    m.set_active(1, 2);
    m.set_inactive(0, 0);
    assert_eq!(*m.frontier(), vec![(1, 1), (1, 2)]);
    assert!(!m.node(0, 0).active);
    assert!(m.node(1, 1).active);
}

#[test]
fn set_inactive_on_a_cell_that_is_not_in_the_frontier_changes_nothing() {
    let mut m = Matrix::new(2, 2);
    m.set_active(0, 1);
    let before = rows_of(&m);
    m.set_inactive(1, 1);
    assert_eq!(*m.frontier(), vec![(0, 1)]);
    assert_eq!(rows_of(&m), before);
    m.set_inactive(0, 1);
    m.set_inactive(0, 1);
    assert!(m.frontier().is_empty());
    assert!(!m.node(0, 1).active);
}

#[test]
fn set_inactive_compares_both_coordinates() {
    let mut m = Matrix::new(3, 3);
    m.set_active(1, 2);
    m.set_active(2, 1);
    m.set_active(1, 1);
    m.set_inactive(1, 1);
    assert_eq!(*m.frontier(), vec![(1, 2), (2, 1)]);
}

#[test]
fn set_state_changes_the_state_and_nothing_else() {
    let mut m = Matrix::new(2, 2);
    m.set_active(1, 0);
    m.set_state(1, 0, State::Wall);
    assert_eq!(m.state(1, 0), State::Wall);
    assert_eq!(
        m.node(1, 0),
        Node { x: 1, y: 0, active: true, state: State::Wall, parent_coords: None }
    );
    assert_eq!(*m.frontier(), vec![(1, 0)]);
    assert_eq!(m.state(0, 0), State::Empty);
    m.set_state(1, 0, State::Empty);
    assert_eq!(m.state(1, 0), State::Empty);
}

#[test]
fn clear_parent_forgets_the_parent_and_nothing_else() {
    let mut m = open_grid(1, 3, (0, 0), (0, 2));
    assert_eq!(m.step(), Solve::Continue);
    assert_eq!(m.node(0, 1).parent_coords, Some((0, 0)));
    m.clear_parent(0, 1);
    assert_eq!(
        m.node(0, 1),
        Node { x: 0, y: 1, active: true, state: State::Visited, parent_coords: None }
    );
    assert_eq!(*m.frontier(), vec![(0, 1)]);
}

#[test]
fn first_generation_visits_the_neighbours_of_the_start() {
    let mut m = open_grid(3, 4, (1, 1), (2, 3));
    assert_eq!(m.step(), Solve::Continue);
    assert_eq!(*m.frontier(), vec![(0, 1), (2, 1), (1, 0), (1, 2)]);
    for c in [(0, 1), (2, 1), (1, 0), (1, 2)] {
        assert_eq!(
            m.node(c.0, c.1),
            Node { x: c.0, y: c.1, active: true, state: State::Visited, parent_coords: Some((1, 1)) }
        );
    }
    assert_eq!(
        m.node(1, 1),
        Node { x: 1, y: 1, active: false, state: State::Start, parent_coords: None }
    );
    assert_eq!(count_state(&m, State::Visited), 4);
    assert_eq!(count_state(&m, State::Empty), 6);
}

#[test]
fn second_generation_leaves_cells_that_are_not_empty_alone() {
    let mut m = open_grid(3, 4, (1, 1), (2, 3));
    m.set_state(0, 2, State::Wall);
    assert_eq!(m.step(), Solve::Continue);
    assert_eq!(m.step(), Solve::Continue);
    // (0, 1) finds (0, 0); (2, 1) finds (2, 0) and (2, 2); (1, 0) finds nothing new;
    // (1, 2) is next to the wall and finds (1, 3).
    assert_eq!(*m.frontier(), vec![(0, 0), (2, 0), (2, 2), (1, 3)]);
    assert_eq!(m.node(0, 0).parent_coords, Some((0, 1)));
    assert_eq!(m.node(2, 0).parent_coords, Some((2, 1)));
    assert_eq!(m.node(2, 2).parent_coords, Some((2, 1)));
    assert_eq!(m.node(1, 3).parent_coords, Some((1, 2)));
    assert_eq!(m.state(0, 2), State::Wall);
    assert_eq!(m.state(1, 1), State::Start);
    assert!(!m.node(0, 1).active);
    assert!(m.node(0, 0).active);
}

#[test]
fn step_on_an_empty_frontier_stops_and_changes_nothing() {
    let mut m = Matrix::new(3, 3);
    m.set_state(2, 2, State::Target);
    let before = rows_of(&m);
    assert_eq!(m.step(), Solve::Stop);
    assert_eq!(rows_of(&m), before);
    assert!(m.frontier().is_empty());
}

#[test]
fn target_next_to_the_start_is_found_in_the_first_generation() {
    let mut m = open_grid(3, 3, (1, 1), (1, 2));
    assert_eq!(m.step(), Solve::Stop);
    assert_eq!(count_state(&m, State::Path), 0);
    // up, down and left were looked at before the target on the right
    assert_eq!(m.state(0, 1), State::Visited);
    assert_eq!(m.state(2, 1), State::Visited);
    assert_eq!(m.state(1, 0), State::Visited);
    assert_eq!(m.state(1, 1), State::Start);
    assert_eq!(m.state(1, 2), State::Target);
    // the frontier stays as it was
    assert_eq!(*m.frontier(), vec![(1, 1)]);
}

#[test]
fn first_frontier_cell_that_sees_the_target_marks_the_path() {
    // Both (0, 1) and (1, 0) are next to the target at (1, 1); the frontier
    // holds (1, 0) first, because it lies below the start.
    let mut m = open_grid(2, 2, (0, 0), (1, 1));
    assert_eq!(m.step(), Solve::Continue);
    assert_eq!(*m.frontier(), vec![(1, 0), (0, 1)]);
    assert_eq!(m.step(), Solve::Stop);
    assert_eq!(m.state(1, 0), State::Path);
    assert_eq!(m.state(0, 1), State::Visited);
    assert_eq!(m.state(0, 0), State::Start);
    assert_eq!(m.state(1, 1), State::Target);
}

#[test]
fn straight_line_on_an_open_grid() {
    let mut m = open_grid(5, 5, (0, 0), (0, 4));
    assert_eq!(steps_to_stop(&mut m), 4);
    assert_eq!(m.state(0, 0), State::Start);
    assert_eq!(m.state(0, 1), State::Path);
    assert_eq!(m.state(0, 2), State::Path);
    assert_eq!(m.state(0, 3), State::Path);
    assert_eq!(m.state(0, 4), State::Target);
    assert_eq!(count_state(&m, State::Path), 3);
    assert_eq!(count_state(&m, State::Start), 1);
    assert_eq!(count_state(&m, State::Target), 1);
    for i in 0..5 {
        for j in 0..5 {
            let d = distance((0, 0), (i, j));
            if i == 0 {
                continue;
            }
            if d <= 3 {
                assert_eq!(m.state(i, j), State::Visited);
            } else if d > 4 {
                assert_eq!(m.state(i, j), State::Empty);
            } else {
                assert!(m.state(i, j) == State::Visited || m.state(i, j) == State::Empty);
            }
        }
    }
}

#[test]
fn start_and_target_in_one_cell_stop_at_once() {
    let mut m = open_grid(3, 3, (1, 1), (1, 1));
    assert_eq!(m.state(1, 1), State::Target);
    let before = rows_of(&m);
    assert_eq!(m.step(), Solve::Stop);
    assert_eq!(rows_of(&m), before);
    assert_eq!(*m.frontier(), vec![(1, 1)]);
    assert_eq!(count_state(&m, State::Path), 0);
    assert_eq!(count_state(&m, State::Visited), 0);
    assert_eq!(count_state(&m, State::Empty), 8);
}

#[test]
fn wall_between_start_and_target_leaves_no_path() {
    let mut m = open_grid(3, 3, (0, 0), (2, 2));
    for j in 0..3 {
        m.set_state(1, j, State::Wall);
    }
    assert_eq!(steps_to_stop(&mut m), 3);
    assert_eq!(count_state(&m, State::Path), 0);
    assert!(m.frontier().is_empty());
    assert_eq!(m.state(0, 0), State::Start);
    assert_eq!(m.state(0, 1), State::Visited);
    assert_eq!(m.state(0, 2), State::Visited);
    for j in 0..3 {
        assert_eq!(m.state(1, j), State::Wall);
    }
    assert_eq!(m.state(2, 0), State::Empty);
    assert_eq!(m.state(2, 1), State::Empty);
    assert_eq!(m.state(2, 2), State::Target);
}

#[test]
fn open_grid_path_has_one_cell_for_each_step_between_start_and_target() {
    let (h, w) = (4, 5);
    for sx in 0..h {
        for sy in 0..w {
            for tx in 0..h {
                for ty in 0..w {
                    if (sx, sy) == (tx, ty) {
                        continue;
                    }
                    let mut m = open_grid(h, w, (sx, sy), (tx, ty));
                    let d = distance((sx, sy), (tx, ty));
                    assert_eq!(steps_to_stop(&mut m), d);
                    assert_eq!(count_state(&m, State::Path) + 2, d + 1);
                    assert_eq!(m.state(sx, sy), State::Start);
                    assert_eq!(m.state(tx, ty), State::Target);
                }
            }
        }
    }
}

#[test]
fn marked_path_leads_from_the_target_back_to_the_start() {
    let mut m = open_grid(6, 7, (5, 1), (0, 6));
    m.set_state(3, 1, State::Wall);
    m.set_state(3, 2, State::Wall);
    m.set_state(3, 3, State::Wall);
    m.set_state(2, 5, State::Wall);
    solve(&mut m);
    // Walk from the path cell next to the target along the parents.
    let mut at = None;
    for n in m.neighbours(0, 6) {
        if n.state == State::Path {
            at = Some((n.x, n.y));
        }
    }
    let mut walked = 0;
    let mut here = at.unwrap();
    loop {
        let node = m.node(here.0, here.1);
        if node.state == State::Start {
            break;
        }
        assert_eq!(node.state, State::Path);
        let parent = node.parent_coords.unwrap();
        assert_eq!(distance(parent, here), 1);
        here = parent;
        walked += 1;
        assert!(walked < 100);
    }
    assert_eq!(here, (5, 1));
    assert_eq!(walked, count_state(&m, State::Path));
}

#[test]
fn enclosed_target_is_never_reached() {
    let mut m = open_grid(5, 5, (4, 4), (0, 0));
    m.set_state(0, 1, State::Wall);
    m.set_state(1, 0, State::Wall);
    // The farthest cells that can be reached are six steps away; the
    // generation after theirs finds nothing and ends the search.
    let steps = steps_to_stop(&mut m);
    assert_eq!(steps, 7);
    assert!(m.frontier().is_empty());
    assert_eq!(count_state(&m, State::Path), 0);
    assert_eq!(count_state(&m, State::Empty), 0);
    assert_eq!(count_state(&m, State::Visited), 21);
    assert_eq!(m.state(0, 0), State::Target);
}

#[test]
fn enclosed_target_in_the_middle_is_never_reached() {
    let mut m = open_grid(5, 5, (0, 0), (2, 2));
    for c in [(1, 2), (3, 2), (2, 1), (2, 3)] {
        m.set_state(c.0, c.1, State::Wall);
    }
    steps_to_stop(&mut m);
    assert!(m.frontier().is_empty());
    assert_eq!(count_state(&m, State::Path), 0);
    assert_eq!(count_state(&m, State::Visited), 19);
}

#[test]
fn parent_of_a_cell_is_set_once() {
    let mut m = open_grid(5, 6, (2, 2), (4, 5));
    m.set_state(3, 3, State::Wall);
    let mut seen: Vec<Vec<Option<(usize, usize)>>> = vec![vec![None; 6]; 5];
    loop {
        let outcome = m.step();
        for i in 0..5 {
            for j in 0..6 {
                let parent = m.node(i, j).parent_coords;
                if seen[i][j].is_some() {
                    assert_eq!(parent, seen[i][j]);
                }
                if parent.is_some() {
                    let state = m.state(i, j);
                    assert!(state == State::Visited || state == State::Path);
                    assert_eq!(distance(parent.unwrap(), (i, j)), 1);
                }
                seen[i][j] = parent;
            }
        }
        if outcome == Solve::Stop {
            break;
        }
    }
    assert_eq!(m.node(2, 2).parent_coords, None);
    assert_eq!(m.node(4, 5).parent_coords, None);
    assert_eq!(m.node(3, 3).parent_coords, None);
}

#[test]
fn new_grid_after_a_search_is_like_a_grid_never_searched() {
    let mut m = open_grid(4, 4, (0, 0), (3, 3));
    solve(&mut m);
    assert!(count_state(&m, State::Path) > 0);
    m = Matrix::new(4, 4);
    let never = Matrix::new(4, 4);
    assert_eq!(rows_of(&m), rows_of(&never));
    assert_eq!(*m.frontier(), *never.frontier());
    assert_eq!(count_state(&m, State::Empty), 16);
}

#[test]
fn solve_is_stepping_until_stop() {
    let mut a = open_grid(5, 7, (4, 0), (0, 6));
    a.set_state(2, 3, State::Wall);
    a.set_state(1, 3, State::Wall);
    let mut b = a.clone();
    solve(&mut a);
    steps_to_stop(&mut b);
    assert_eq!(rows_of(&a), rows_of(&b));
    assert_eq!(*a.frontier(), *b.frontier());
}

#[test]
fn search_goes_around_a_wall() {
    // S . # . T
    // . . # . .
    // . . . . .
    let mut m = open_grid(3, 5, (0, 0), (0, 4));
    m.set_state(0, 2, State::Wall);
    m.set_state(1, 2, State::Wall);
    assert_eq!(steps_to_stop(&mut m), 8);
    assert_eq!(count_state(&m, State::Path), 7);
    assert_eq!(m.state(2, 2), State::Path);
    assert_eq!(m.state(0, 2), State::Wall);
}

#[test]
fn frontier_cell_that_is_a_wall_next_to_the_target_ends_the_search() {
    let mut m = Matrix::new(1, 3);
    m.set_state(0, 2, State::Target);
    m.set_state(0, 1, State::Wall);
    m.set_active(0, 1);
    assert_eq!(m.step(), Solve::Stop);
    assert_eq!(*m.frontier(), vec![(0, 1)]);
    assert_eq!(m.state(0, 1), State::Wall);
    assert_eq!(m.state(0, 0), State::Visited);
    assert_eq!(count_state(&m, State::Path), 0);
}

#[test]
fn into_rows_hands_out_the_cells_row_by_row() {
    let mut m = Matrix::new(2, 2);
    m.set_state(1, 0, State::Wall);
    let rows = m.into_rows();
    assert_eq!(rows[0][0], Node::new(0, 0));
    assert_eq!(rows[0][1], Node::new(0, 1));
    assert_eq!(rows[1][0].state, State::Wall);
    assert_eq!(rows[1][1], Node::new(1, 1));
}

/// The number of steps from `start` to the nearest cell from which a target
/// is seen, counted by flooding the grid from `start` over empty cells.
fn steps_to_sight(walls: &Vec<Vec<bool>>, start: (usize, usize), target: (usize, usize)) -> Option<usize> {
    let h = walls.len();
    let w = walls[0].len();
    let mut steps: Vec<Vec<Option<usize>>> = vec![vec![None; w]; h];
    steps[start.0][start.1] = Some(0);
    let mut ring = vec![start];
    let mut n = 0;
    while !ring.is_empty() {
        for c in ring.iter() {
            if distance(*c, target) == 1 {
                return Some(n);
            }
        }
        let mut next = vec![];
        for c in ring.iter() {
            let mut around = vec![];
            if c.0 > 0 {
                around.push((c.0 - 1, c.1));
            }
            if c.0 + 1 < h {
                around.push((c.0 + 1, c.1));
            }
            if c.1 > 0 {
                around.push((c.0, c.1 - 1));
            }
            if c.1 + 1 < w {
                around.push((c.0, c.1 + 1));
            }
            for d in around {
                if !walls[d.0][d.1] && d != target && d != start && steps[d.0][d.1].is_none() {
                    steps[d.0][d.1] = Some(n + 1);
                    next.push(d);
                }
            }
        }
        ring = next;
        n += 1;
    }
    None
}

#[test]
fn search_among_walls_marks_a_shortest_path_or_none() {
    let (h, w) = (7, 9);
    let mut seed: u64 = 12345;
    let mut found = 0;
    let mut lost = 0;
    for _ in 0..300 {
        let mut draw = |bound: usize| {
            seed = seed.wrapping_mul(6364136223846793005).wrapping_add(1442695040888963407);
            ((seed >> 33) as usize) % bound
        };
        let start = (draw(h), draw(w));
        let target = (draw(h), draw(w));
        if start == target {
            continue;
        }
        let mut walls = vec![vec![false; w]; h];
        let mut m = open_grid(h, w, start, target);
        for _ in 0..25 {
            let c = (draw(h), draw(w));
            if c != start && c != target {
                walls[c.0][c.1] = true;
                m.set_state(c.0, c.1, State::Wall);
            }
        }
        solve(&mut m);
        match steps_to_sight(&walls, start, target) {
            Some(n) => {
                found += 1;
                assert_eq!(count_state(&m, State::Path), n);
                // the path leads from a cell next to the target back to the start
                let mut here = target;
                let mut seen = 0;
                for nb in m.neighbours(target.0, target.1) {
                    if nb.state == State::Path && seen == 0 {
                        let mut at = (nb.x, nb.y);
                        let mut walked = 1;
                        while let Some(p) = m.node(at.0, at.1).parent_coords {
                            assert_eq!(distance(p, at), 1);
                            if p == start {
                                break;
                            }
                            assert_eq!(m.state(p.0, p.1), State::Path);
                            at = p;
                            walked += 1;
                        }
                        if walked == n {
                            seen = walked;
                            here = at;
                        }
                    }
                }
                if n > 0 {
                    assert_eq!(seen, n);
                    assert_eq!(m.node(here.0, here.1).parent_coords, Some(start));
                }
            }
            None => {
                lost += 1;
                assert_eq!(count_state(&m, State::Path), 0);
                assert!(m.frontier().is_empty());
            }
        }
    }
    assert!(found > 50);
    assert!(lost > 5);
}
