//! Searches between cells picked at random on a grid without walls.
use rand::rngs::ThreadRng;
use rand::Rng;
use vstd::prelude::*;
use crate::laws::law_coincident_start_and_target;
use crate::matrix::solve;
use crate::matrix::Matrix;
use crate::model::count;
use crate::model::inside;
use crate::model::manhattan;
use crate::node::State;
use crate::open_grid::law_open_grid_shortest_path;
use crate::open_grid::lemma_open_grid;
use crate::open_grid::open_grid;

verus! {

/// The random number generator of the `rand` crate that each thread has
/// for itself. Nothing is known of what is inside it.
#[verifier::external_type_specification]
#[verifier::external_body]
pub struct ExThreadRng(ThreadRng);

/// Calls `rand::Rng::gen_range` with the bounds zero and `bound`. The crate
/// documents that the number it returns is at least the lower and less
/// than the upper bound, and that it panics unless the lower bound is less
/// than the upper one. Which number comes is left open.
#[verifier::external_body]
fn random_below(rng: &mut ThreadRng, bound: usize) -> (n: usize)
    requires
        bound > 0,
    ensures
        n < bound,
{
    rng.gen_range(0, bound)
}

/// A search that was run, and the cells it was run between.
pub struct Trial {
    pub matrix: Matrix,
    pub start: (usize, usize),
    pub target: (usize, usize),
}

/// Picks a cell of a grid of `height` rows and `width` columns at random.
pub fn random_cell(rng: &mut ThreadRng, height: usize, width: usize) -> (cell: (usize, usize))
    requires
        height >= 1,
        width >= 1,
    ensures
        cell.0 < height,
        cell.1 < width,
{
    let x = random_below(rng, height);
    let y = random_below(rng, width);
    (x, y)
}

/// Places the start at `start` and the target at `target`: the start cell
/// becomes the frontier, and then the target cell becomes the target.
/// Where the two are one cell, that cell ends up as the target.
pub fn place(matrix: &mut Matrix, start: (usize, usize), target: (usize, usize))
    requires
        old(matrix).wf(),
        inside(old(matrix)@.cells, start),
        inside(old(matrix)@.cells, target),
    ensures
        final(matrix).wf(),
        final(matrix)@ == old(matrix)@.with_state(start, State::Start).activate(start).with_state(
            target,
            State::Target,
        ),
{
    matrix.set_state(start.0, start.1, State::Start);
    matrix.set_active(start.0, start.1);
    matrix.set_state(target.0, target.1, State::Target);
}

/// Searches a fresh grid of `height` rows and `width` columns from `start`
/// for `target`, to the end. Between two cells the search marks a shortest
/// path: with start and target, it has one cell more than there are steps
/// between the two. From a cell for itself, the search ends at once and
/// leaves the grid as it was when the cell was placed on it.
pub fn search_between(height: usize, width: usize, start: (usize, usize), target: (
    usize,
    usize,
)) -> (matrix: Matrix)
    requires
        height >= 1,
        width >= 1,
        start.0 < height,
        start.1 < width,
        target.0 < height,
        target.1 < width,
    ensures
        matrix.wf(),
        matrix@ == open_grid(height as nat, width as nat, start, target).run(),
        start != target ==> count(matrix@.cells, State::Path) + 2 == manhattan(start, target) + 1,
        start == target ==> matrix@ == open_grid(height as nat, width as nat, start, target),
{
    let mut matrix = Matrix::new(height, width);
    place(&mut matrix, start, target);
    proof {
        if start != target {
            lemma_open_grid(height as nat, width as nat, start, target);
            let path = law_open_grid_shortest_path(matrix@, start, target);
        } else {
            assert(matrix@.frontier[0] == start);
            law_coincident_start_and_target(matrix@);
        }
    }
    solve(&mut matrix);
    matrix
}

/// Picks start and target at random on a fresh grid of `height` rows and
/// `width` columns, and searches from the one for the other. Whatever
/// cells are picked, the grid that comes back is that search run to its
/// end.
pub fn random_trial(rng: &mut ThreadRng, height: usize, width: usize) -> (trial: Trial)
    requires
        height >= 1,
        width >= 1,
    ensures
        trial.start.0 < height,
        trial.start.1 < width,
        trial.target.0 < height,
        trial.target.1 < width,
        trial.matrix.wf(),
        trial.matrix@ == open_grid(height as nat, width as nat, trial.start, trial.target).run(),
{
    let start = random_cell(rng, height, width);
    let target = random_cell(rng, height, width);
    let matrix = search_between(height, width, start, target);
    Trial { matrix, start, target }
}

} // verus!
