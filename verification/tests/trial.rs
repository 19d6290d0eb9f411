use pathfinder::matrix::Matrix;
use pathfinder::node::State;
use pathfinder::trial::place;
use pathfinder::trial::random_cell;
use pathfinder::trial::random_trial;
use pathfinder::trial::search_between;

fn path_cells(matrix: &Matrix) -> usize {
    let mut n = 0;
    for row in matrix.clone().into_rows() {
        for node in row {
            if node.state == State::Path {
                n += 1;
            }
        }
    }
    n
}

fn steps_between(a: (usize, usize), b: (usize, usize)) -> usize {
    let dx = if a.0 > b.0 { a.0 - b.0 } else { b.0 - a.0 };
    let dy = if a.1 > b.1 { a.1 - b.1 } else { b.1 - a.1 };
    dx + dy
}

#[test]
fn random_cell_of_a_grid_of_one_cell_is_that_cell() {
    let mut rng = rand::thread_rng();
    for _ in 0..50 {
        assert_eq!(random_cell(&mut rng, 1, 1), (0, 0));
    }
}

#[test]
fn random_cell_lies_in_the_grid() {
    let mut rng = rand::thread_rng();
    let mut rows = [false; 3];
    let mut columns = [false; 2];
    for _ in 0..500 {
        let (x, y) = random_cell(&mut rng, 3, 2);
        assert!(x < 3);
        assert!(y < 2);
        rows[x] = true;
        columns[y] = true;
    }
    assert_eq!(rows, [true; 3]);
    assert_eq!(columns, [true; 2]);
}

#[test]
fn place_puts_start_and_target_on_the_grid() {
    let mut m = Matrix::new(3, 3);
    place(&mut m, (0, 1), (2, 2));
    assert_eq!(m.state(0, 1), State::Start);
    assert!(m.node(0, 1).active);
    assert_eq!(m.state(2, 2), State::Target);
    assert_eq!(*m.frontier(), vec![(0, 1)]);
}

#[test]
fn place_on_one_cell_leaves_the_target_there() {
    let mut m = Matrix::new(3, 3);
    place(&mut m, (1, 1), (1, 1));
    assert_eq!(m.state(1, 1), State::Target);
    assert_eq!(*m.frontier(), vec![(1, 1)]);
}

#[test]
fn search_between_two_cells_marks_a_shortest_path() {
    let m = search_between(15, 15, (2, 3), (10, 14));
    assert_eq!(path_cells(&m), 18);
    assert_eq!(m.state(2, 3), State::Start);
    assert_eq!(m.state(10, 14), State::Target);
}

#[test]
fn search_from_a_cell_for_itself_marks_nothing() {
    let m = search_between(15, 15, (7, 7), (7, 7));
    assert_eq!(path_cells(&m), 0);
    assert_eq!(m.state(7, 7), State::Target);
    assert_eq!(m.state(6, 7), State::Empty);
}

#[test]
fn random_trial_is_a_search_between_the_cells_it_picked() {
    let mut rng = rand::thread_rng();
    for _ in 0..20 {
        let trial = random_trial(&mut rng, 15, 15);
        assert!(trial.start.0 < 15 && trial.start.1 < 15);
        assert!(trial.target.0 < 15 && trial.target.1 < 15);
        let same = search_between(15, 15, trial.start, trial.target);
        assert_eq!(trial.matrix.clone().into_rows(), same.into_rows());
        if trial.start == trial.target {
            assert_eq!(path_cells(&trial.matrix), 0);
        } else {
            assert_eq!(path_cells(&trial.matrix) + 1, steps_between(trial.start, trial.target));
        }
    }
}
