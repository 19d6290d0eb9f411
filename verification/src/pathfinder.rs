//! The session around a grid: where start and target are, which stage the
//! session has reached, and what each message from the user or the clock
//! does to it.
use vstd::prelude::*;
use crate::clearing::clear_cell;
use crate::clearing::clear_progress;
use crate::clearing::lemma_clear_begin;
use crate::clearing::lemma_clear_cell;
use crate::clearing::lemma_clear_end;
use crate::clearing::lemma_clear_row;
use crate::matrix::solve;
use crate::matrix::Matrix;
use crate::matrix::Solve;
use crate::model::at;
use crate::model::inside;
use crate::model::GridView;
use crate::node::State;
use crate::progress::lemma_run;
use crate::session::law_session_begins_steady;
use crate::session::law_session_stays_steady;
use crate::progress::lemma_step;

verus! {

/// What can happen to a session.
#[derive(Clone, Copy, Debug)]
pub enum Msg {
    /// The clock has ticked.
    NextTick,
    /// The user asks for a fresh grid.
    Reset,
    /// The user starts, pauses or resumes the search.
    Start,
    /// The pointer has come over the cell at these coordinates.
    MouseHover(usize, usize),
    /// The button went down over the cell at these coordinates.
    MouseDown(usize, usize),
    /// The button went up.
    MouseUp,
}

/// How far a session has come.
#[derive(Clone, Copy, PartialEq, Eq, Structural, Debug)]
pub enum Stage {
    Init,
    StartSet,
    TargetSet,
    Started,
    Paused,
    Done,
}

/// The width of a cell on the screen.
pub const CELL_WIDTH: usize = 30;

/// The height of a cell on the screen.
pub const CELL_HEIGHT: usize = 30;

/// A window of this size has room for a grid: below the four rows and
/// beside the two columns that are kept free, at least one cell is left.
pub open spec fn window_fits(window_height: usize, window_width: usize) -> bool {
    window_height / CELL_HEIGHT >= 5 && window_width / CELL_WIDTH >= 3
}

/// The rows and columns of the grid that a window of this size gets: as
/// many cells as fit, less four rows and two columns.
pub open spec fn dimensions_of(window_height: usize, window_width: usize) -> (usize, usize) {
    ((window_height / CELL_HEIGHT - 4) as usize, (window_width / CELL_WIDTH - 2) as usize)
}

/// Whether a window of this size has room for a grid.
pub fn check_window(window_height: usize, window_width: usize) -> (fits: bool)
    ensures
        fits == window_fits(window_height, window_width),
{
    window_height / CELL_HEIGHT >= 5 && window_width / CELL_WIDTH >= 3
}

/// The rows and columns of the grid for a window of this size.
pub fn get_grid_dimensions(window_height: usize, window_width: usize) -> (dimensions: (
    usize,
    usize,
))
    requires
        window_fits(window_height, window_width),
    ensures
        dimensions == dimensions_of(window_height, window_width),
        dimensions.0 >= 1,
        dimensions.1 >= 1,
{
    let h = (window_height / CELL_HEIGHT) - 4;
    let w = (window_width / CELL_WIDTH) - 2;
    (h, w)
}

/// The style class of the board in `stage`: the board is marked while the
/// search runs, and at no other time.
pub open spec fn solving_class_of(stage: Stage) -> Option<Seq<char>> {
    match stage {
        Stage::Started => Some("solving"@),
        _ => None,
    }
}

pub fn solving_class(stage: Stage) -> (class: Option<String>)
    ensures
        class matches Some(name) ==> solving_class_of(stage) == Some(name@),
        class is None ==> solving_class_of(stage) is None,
{
    match stage {
        Stage::Started => Some("solving".to_owned()),
        _ => None,
    }
}

/// What a [`Pathfinder`] stands for.
pub struct PathfinderView {
    pub grid: GridView,
    pub steps: int,
    pub start: Option<(usize, usize)>,
    pub target: Option<(usize, usize)>,
    pub stage: Stage,
    pub down: bool,
    pub currently_moving: Option<State>,
}

impl PathfinderView {
    /// The grid is well formed, and start and target, where they are set,
    /// are cells of it.
    pub open spec fn wf(self) -> bool {
        &&& self.grid.wf()
        &&& self.start matches Some(c) ==> inside(self.grid.cells, c)
        &&& self.target matches Some(c) ==> inside(self.grid.cells, c)
    }

    /// The session at its beginning, for a window of the given size.
    pub open spec fn created(window_height: usize, window_width: usize) -> PathfinderView {
        let (height, width) = dimensions_of(window_height, window_width);
        PathfinderView {
            grid: GridView::fresh(height as nat, width as nat),
            steps: 0,
            start: None,
            target: None,
            stage: Stage::Init,
            down: false,
            currently_moving: None,
        }
    }

    /// The session with the start placed at `c`. A start that was placed
    /// before moves: its old cell leaves the frontier and is empty again.
    /// The new cell becomes the start and the only seed of the search.
    pub open spec fn set_start(self, c: (usize, usize)) -> PathfinderView {
        let grid = match self.start {
            Some(old) => self.grid.deactivate(old).with_state(old, State::Empty),
            None => self.grid,
        };
        PathfinderView {
            start: Some(c),
            grid: grid.with_state(c, State::Start).activate(c),
            ..self
        }
    }

    /// The session with the target placed at `c`. A target that was placed
    /// before moves: its old cell is empty again.
    pub open spec fn set_target(self, c: (usize, usize)) -> PathfinderView {
        let grid = match self.target {
            Some(old) => self.grid.with_state(old, State::Empty),
            None => self.grid,
        };
        PathfinderView { target: Some(c), grid: grid.with_state(c, State::Target), ..self }
    }

    /// What the pointer does to the cell at `c` while the button is down,
    /// once start and target are placed, and whether that changed the grid.
    ///
    /// The first cell of a stroke decides what the stroke does. A stroke
    /// that begins on the start or on the target picks it up, and drops it
    /// on every free cell it comes over. A stroke that begins on a wall
    /// erases walls, and a stroke that begins on a free cell draws walls.
    /// Start and target are never drawn over, and a stroke that carries one
    /// of them leaves walls alone.
    pub open spec fn change_cell(self, c: (usize, usize)) -> (PathfinderView, bool) {
        let state = at(self.grid.cells, c).state;
        match state {
            State::Target | State::Start => (
                if self.currently_moving is None {
                    PathfinderView { currently_moving: Some(state), ..self }
                } else {
                    self
                },
                false,
            ),
            State::Wall => match self.currently_moving {
                None => (
                    PathfinderView {
                        currently_moving: Some(State::Empty),
                        grid: self.grid.with_state(c, State::Empty),
                        ..self
                    },
                    true,
                ),
                Some(State::Empty) => (
                    PathfinderView { grid: self.grid.with_state(c, State::Empty), ..self },
                    true,
                ),
                Some(_) => (self, false),
            },
            _ => match self.currently_moving {
                None => (
                    PathfinderView {
                        currently_moving: Some(State::Wall),
                        grid: self.grid.with_state(c, State::Wall),
                        ..self
                    },
                    true,
                ),
                Some(State::Start) => (self.set_start(c), true),
                Some(State::Target) => (self.set_target(c), true),
                Some(State::Wall) => (
                    PathfinderView { grid: self.grid.with_state(c, State::Wall), ..self },
                    true,
                ),
                Some(_) => (
                    PathfinderView { grid: self.grid.with_state(c, State::Empty), ..self },
                    true,
                ),
            },
        }
    }

    /// The session with the grid cleared for a new search.
    pub open spec fn clear(self) -> PathfinderView {
        PathfinderView { grid: self.grid.cleared(), ..self }
    }

    /// The session with the search run to its end.
    pub open spec fn solve(self) -> PathfinderView {
        PathfinderView { grid: self.grid.run(), ..self }
    }

    /// The session with the grid cleared and searched anew.
    pub open spec fn update_solution(self) -> PathfinderView {
        self.clear().solve()
    }

    /// What the pointer does at `c` while the button is down, and whether
    /// the grid has to be drawn again.
    ///
    /// At first it places the start, then the target, which cannot go where
    /// the start is. Before a search, and after one, it edits the grid, see
    /// [`Self::change_cell`]; after a search, every edit is followed by a
    /// new search. While a search runs or pauses, it does nothing.
    pub open spec fn activate(self, c: (usize, usize)) -> (PathfinderView, bool) {
        match self.stage {
            Stage::Init => (self.set_start(c), true),
            Stage::StartSet => if at(self.grid.cells, c).state == State::Start {
                (self, false)
            } else {
                (self.set_target(c), true)
            },
            Stage::TargetSet => self.change_cell(c),
            Stage::Started => (self, false),
            Stage::Paused => (self, false),
            Stage::Done => {
                let (changed, moved) = self.change_cell(c);
                if moved {
                    (changed.update_solution(), true)
                } else {
                    (changed, false)
                }
            },
        }
    }

    /// What a tick does: while the search runs, one generation. After a
    /// generation that goes on the tick is counted; after the last one the
    /// session is done. At any other stage a tick does nothing.
    pub open spec fn tick(self) -> (PathfinderView, bool) {
        if self.stage == Stage::Started {
            (
                if self.grid.outcome() == Solve::Continue {
                    PathfinderView { grid: self.grid.step(), steps: self.steps + 1, ..self }
                } else {
                    PathfinderView { grid: self.grid.step(), stage: Stage::Done, ..self }
                },
                true,
            )
        } else {
            (self, false)
        }
    }

    /// What a reset does: the session begins again on a fresh grid for the
    /// window as it is now, with neither start nor target.
    pub open spec fn reset(self, window_height: usize, window_width: usize) -> PathfinderView {
        let (height, width) = dimensions_of(window_height, window_width);
        PathfinderView {
            stage: Stage::Init,
            grid: GridView::fresh(height as nat, width as nat),
            start: None,
            target: None,
            ..self
        }
    }

    /// What letting the button go does: the stroke ends, and a stage that
    /// was waiting for the start or the target to be placed is over once it
    /// is placed.
    pub open spec fn release(self) -> (PathfinderView, bool) {
        let idle = PathfinderView { down: false, currently_moving: None, ..self };
        match self.stage {
            Stage::Init => if self.start is Some {
                (PathfinderView { stage: Stage::StartSet, ..idle }, true)
            } else {
                (idle, false)
            },
            Stage::StartSet => if self.target is Some {
                (PathfinderView { stage: Stage::TargetSet, ..idle }, true)
            } else {
                (idle, false)
            },
            _ => (idle, false),
        }
    }

    /// What the start button does: it starts or resumes a search that is
    /// ready or paused, and pauses one that runs.
    pub open spec fn toggle(self) -> (PathfinderView, bool) {
        match self.stage {
            Stage::Paused | Stage::TargetSet => (
                PathfinderView { stage: Stage::Started, ..self },
                true,
            ),
            Stage::Started => (PathfinderView { stage: Stage::Paused, ..self }, true),
            _ => (self, false),
        }
    }

    /// The messages that a session can take: coordinates name a cell, a
    /// reset comes with a window that has room for a grid, and the count of
    /// ticks has room for one more.
    pub open spec fn accepts(self, msg: Msg, window_height: usize, window_width: usize) -> bool {
        match msg {
            Msg::NextTick => self.stage == Stage::Started ==> self.steps < i64::MAX,
            Msg::Reset => window_fits(window_height, window_width),
            Msg::MouseHover(i, j) => inside(self.grid.cells, (i, j)),
            Msg::MouseDown(i, j) => inside(self.grid.cells, (i, j)),
            Msg::MouseUp => true,
            Msg::Start => true,
        }
    }

    /// The session after `msg`, and whether it has to be drawn again.
    pub open spec fn update(self, msg: Msg, window_height: usize, window_width: usize) -> (
        PathfinderView,
        bool,
    ) {
        match msg {
            Msg::NextTick => self.tick(),
            Msg::Reset => (self.reset(window_height, window_width), true),
            Msg::MouseHover(i, j) => if !self.down {
                (self, false)
            } else {
                self.activate((i, j))
            },
            Msg::MouseDown(i, j) => (PathfinderView { down: true, ..self }).activate((i, j)),
            Msg::MouseUp => self.release(),
            Msg::Start => self.toggle(),
        }
    }
}

/// A grid, the search on it, and the stage that the user has reached in
/// setting it up and running it.
pub struct Pathfinder {
    matrix: Matrix,
    steps: i64,
    start: Option<(usize, usize)>,
    target: Option<(usize, usize)>,
    stage: Stage,
    down: bool,
    currently_moving: Option<State>,
}

impl View for Pathfinder {
    type V = PathfinderView;

    closed spec fn view(&self) -> PathfinderView {
        PathfinderView {
            grid: self.matrix@,
            steps: self.steps as int,
            start: self.start,
            target: self.target,
            stage: self.stage,
            down: self.down,
            currently_moving: self.currently_moving,
        }
    }
}

impl Pathfinder {
    /// The invariant of a session: see [`PathfinderView::wf`].
    pub open spec fn wf(&self) -> bool {
        self@.wf()
    }

    /// A session at its beginning, for a window of the given size. It is
    /// in order: see [`PathfinderView::steady`].
    pub fn create(window_height: usize, window_width: usize) -> (session: Pathfinder)
        requires
            window_fits(window_height, window_width),
        ensures
            session.wf(),
            session@ == PathfinderView::created(window_height, window_width),
            session@.steady(),
    {
        proof {
            law_session_begins_steady(window_height, window_width);
        }
        let (h, w) = get_grid_dimensions(window_height, window_width);
        Pathfinder {
            start: None,
            target: None,
            stage: Stage::Init,
            matrix: Matrix::new(h, w),
            steps: 0,
            down: false,
            currently_moving: None,
        }
    }

    /// The grid.
    pub fn matrix(&self) -> (matrix: &Matrix)
        ensures
            matrix@ == self@.grid,
    {
        &self.matrix
    }

    /// The number of ticks after which the search went on.
    pub fn steps(&self) -> (steps: i64)
        ensures
            steps == self@.steps,
    {
        self.steps
    }

    /// Where the start is, once it is placed.
    pub fn start(&self) -> (start: Option<(usize, usize)>)
        ensures
            start == self@.start,
    {
        self.start
    }

    /// Where the target is, once it is placed.
    pub fn target(&self) -> (target: Option<(usize, usize)>)
        ensures
            target == self@.target,
    {
        self.target
    }

    /// The stage that the session has reached.
    pub fn stage(&self) -> (stage: Stage)
        ensures
            stage == self@.stage,
    {
        self.stage
    }

    /// Handles one message, and says whether the session has to be drawn
    /// again. The size of the window is looked at when the message is a
    /// reset, and at no other time. A session that is in order stays in
    /// order: see [`PathfinderView::steady`].
    pub fn update(&mut self, msg: Msg, window_height: usize, window_width: usize) -> (redraw: bool)
        requires
            old(self).wf(),
            old(self)@.accepts(msg, window_height, window_width),
        ensures
            final(self).wf(),
            (final(self)@, redraw) == old(self)@.update(msg, window_height, window_width),
            old(self)@.steady() ==> final(self)@.steady(),
    {
        proof {
            if self@.steady() {
                law_session_stays_steady(self@, msg, window_height, window_width);
            }
        }
        match msg {
            Msg::NextTick => match self.stage {
                Stage::Started => {
                    proof {
                        lemma_step(self@.grid);
                    }
                    match self.matrix.step() {
                        Solve::Continue => self.steps += 1,
                        Solve::Stop => self.stage = Stage::Done,
                    }
                    true
                },
                _ => false,
            },
            Msg::Reset => {
                self.stage = Stage::Init;
                let (h, w) = get_grid_dimensions(window_height, window_width);
                self.matrix = Matrix::new(h, w);
                self.start = None;
                self.target = None;
                true
            },
            Msg::MouseHover(i, j) => {
                if !self.down {
                    false
                } else {
                    self.activate(i, j)
                }
            },
            Msg::MouseDown(i, j) => {
                self.down = true;
                self.activate(i, j)
            },
            Msg::MouseUp => {
                self.down = false;
                self.currently_moving = None;
                match self.stage {
                    Stage::Init => {
                        if let Some(_) = self.start {
                            self.stage = Stage::StartSet;
                            true
                        } else {
                            false
                        }
                    },
                    Stage::StartSet => match self.target {
                        Some(_) => {
                            self.stage = Stage::TargetSet;
                            true
                        },
                        None => false,
                    },
                    Stage::Done => false,
                    _ => false,
                }
            },
            Msg::Start => match self.stage {
                Stage::Paused | Stage::TargetSet => {
                    self.stage = Stage::Started;
                    true
                },
                Stage::Started => {
                    self.stage = Stage::Paused;
                    true
                },
                _ => false,
            },
        }
    }

    /// Places the start at `(i, j)`, moving it there if it was placed
    /// before.
    pub fn set_start(&mut self, i: usize, j: usize)
        requires
            old(self).wf(),
            inside(old(self)@.grid.cells, (i, j)),
        ensures
            final(self).wf(),
            final(self)@ == old(self)@.set_start((i, j)),
    {
        if let Some((i, j)) = self.start {
            self.matrix.set_inactive(i, j);
            self.matrix.set_state(i, j, State::Empty);
        };

        self.start = Some((i, j));
        self.matrix.set_state(i, j, State::Start);
        self.matrix.set_active(i, j);
    }

    /// Places the target at `(i, j)`, moving it there if it was placed
    /// before.
    pub fn set_target(&mut self, i: usize, j: usize)
        requires
            old(self).wf(),
            inside(old(self)@.grid.cells, (i, j)),
        ensures
            final(self).wf(),
            final(self)@ == old(self)@.set_target((i, j)),
    {
        if let Some((i, j)) = self.target {
            self.matrix.set_state(i, j, State::Empty);
        };

        self.target = Some((i, j));
        self.matrix.set_state(i, j, State::Target);
    }

    /// What the pointer does at `(i, j)` while the button is down: see
    /// [`PathfinderView::activate`].
    pub fn activate(&mut self, i: usize, j: usize) -> (redraw: bool)
        requires
            old(self).wf(),
            inside(old(self)@.grid.cells, (i, j)),
        ensures
            final(self).wf(),
            (final(self)@, redraw) == old(self)@.activate((i, j)),
    {
        match self.stage {
            Stage::Init => {
                self.set_start(i, j);
                true
            },
            Stage::StartSet => match self.matrix.state(i, j) {
                State::Start => false,
                _ => {
                    self.set_target(i, j);
                    true
                },
            },
            Stage::TargetSet => self.change_cell(i, j),
            Stage::Started => false,
            Stage::Paused => false,
            Stage::Done => {
                let should_move = self.change_cell(i, j);
                if should_move {
                    self.update_solution()
                }
                should_move
            },
        }
    }

    /// Edits the cell at `(i, j)` as the stroke under way asks for: see
    /// [`PathfinderView::change_cell`].
    pub fn change_cell(&mut self, i: usize, j: usize) -> (changed: bool)
        requires
            old(self).wf(),
            inside(old(self)@.grid.cells, (i, j)),
        ensures
            final(self).wf(),
            (final(self)@, changed) == old(self)@.change_cell((i, j)),
            final(self)@.stage == old(self)@.stage,
    {
        match self.matrix.state(i, j) {
            State::Target | State::Start => {
                if self.currently_moving.is_none() {
                    self.currently_moving = Some(self.matrix.state(i, j));
                }
                false
            },
            State::Wall => match self.currently_moving {
                None => {
                    self.currently_moving = Some(State::Empty);
                    self.matrix.set_state(i, j, State::Empty);
                    true
                },
                Some(State::Empty) => {
                    self.matrix.set_state(i, j, State::Empty);
                    true
                },
                Some(_) => false,
            },
            _ => match self.currently_moving {
                None => {
                    self.currently_moving = Some(State::Wall);
                    self.matrix.set_state(i, j, State::Wall);
                    true
                },
                Some(state) => match state {
                    State::Start => {
                        self.set_start(i, j);
                        true
                    },
                    State::Target => {
                        self.set_target(i, j);
                        true
                    },
                    State::Wall => {
                        self.matrix.set_state(i, j, State::Wall);
                        true
                    },
                    _ => {
                        self.matrix.set_state(i, j, State::Empty);
                        true
                    },
                },
            },
        }
    }

    /// Clears the grid for a new search. Visited and path cells are empty
    /// again, and no cell has a parent. Start, target and walls stay, and
    /// the start cells are the frontier.
    pub fn clear(&mut self)
        requires
            old(self).wf(),
        ensures
            final(self).wf(),
            final(self)@ == old(self)@.clear(),
    {
        let ghost g0 = self@.grid;
        let height = self.matrix.height();
        let width = self.matrix.width();
        proof {
            lemma_clear_begin(g0);
        }
        for i in 0..height
            invariant
                g0.wf(),
                g0 == old(self)@.grid,
                height == g0.cells.len(),
                width == g0.cells[0].len(),
                self.matrix.wf(),
                self.matrix@ == clear_progress(g0, i as int, 0),
                self@ == (PathfinderView { grid: self.matrix@, ..old(self)@ }),
        {
            for j in 0..width
                invariant
                    g0.wf(),
                    g0 == old(self)@.grid,
                    i < height,
                    height == g0.cells.len(),
                    width == g0.cells[0].len(),
                    self.matrix.wf(),
                    self.matrix@ == clear_progress(g0, i as int, j as int),
                    self@ == (PathfinderView { grid: self.matrix@, ..old(self)@ }),
            {
                proof {
                    lemma_clear_cell(g0, i as int, j as int);
                    assert(g0.cells[i as int].len() == width);
                    assert(inside(self.matrix@.cells, (i, j)));
                }
                self.matrix.set_inactive(i, j);
                self.matrix.clear_parent(i, j);
                match self.matrix.state(i, j) {
                    State::Start => self.matrix.set_active(i, j),
                    State::Target | State::Wall | State::Empty => {},
                    _ => self.matrix.set_state(i, j, State::Empty),
                }
                assert(self.matrix@ == clear_cell(clear_progress(g0, i as int, j as int), (i, j)));
            }
            proof {
                lemma_clear_row(g0, i as int);
            }
        }
        proof {
            lemma_clear_end(g0);
            assert(g0.cleared().cells.len() == g0.cells.len());
            assert forall|a: int| 0 <= a < g0.cells.len() implies (#[trigger] g0.cleared().cells[a]).len()
                == g0.cells[a].len() by {}
        }
    }

    /// Runs the search to its end.
    pub fn solve(&mut self)
        requires
            old(self).wf(),
        ensures
            final(self).wf(),
            final(self)@ == old(self)@.solve(),
    {
        proof {
            lemma_run(self@.grid);
        }
        solve(&mut self.matrix);
    }

    /// Clears the grid and searches it anew.
    pub fn update_solution(&mut self)
        requires
            old(self).wf(),
        ensures
            final(self).wf(),
            final(self)@ == old(self)@.update_solution(),
    {
        self.clear();
        self.solve();
    }
}

} // verus!
