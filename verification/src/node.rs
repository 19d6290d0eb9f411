//! One cell of the grid: its classification, its place in the frontier and
//! the cell it was discovered from.
use vstd::prelude::*;

verus! {

/// The classification of a cell. A cell is in exactly one of these states.
#[derive(Clone, Copy, PartialEq, Eq, Structural, Debug)]
pub enum State {
    Empty,
    Start,
    Visited,
    Path,
    Target,
    Wall,
}

/// The style class under which a cell in `state` is drawn.
pub open spec fn class_name(state: State) -> Seq<char> {
    match state {
        State::Path => "path pop"@,
        State::Empty => "empty"@,
        State::Start => "start pop"@,
        State::Wall => "wall pop"@,
        State::Visited => "visited"@,
        State::Target => "target pop"@,
    }
}

pub fn state_class(state: State) -> (class: String)
    ensures
        class@ == class_name(state),
{
    match state {
        State::Path => "path pop".to_owned(),
        State::Empty => "empty".to_owned(),
        State::Start => "start pop".to_owned(),
        State::Wall => "wall pop".to_owned(),
        State::Visited => "visited".to_owned(),
        State::Target => "target pop".to_owned(),
    }
}

/// The character that stands for a cell in `state` in a plain-text drawing.
pub open spec fn symbol_of(state: State) -> char {
    match state {
        State::Empty => ' ',
        State::Visited => '_',
        State::Start => 'O',
        State::Path => '+',
        State::Target => 'x',
        State::Wall => '#',
    }
}

pub fn state_symbol(state: State) -> (symbol: char)
    ensures
        symbol == symbol_of(state),
{
    match state {
        State::Empty => ' ',
        State::Visited => '_',
        State::Start => 'O',
        State::Path => '+',
        State::Target => 'x',
        State::Wall => '#',
    }
}

/// A cell. `x` is its row and `y` its column; neither changes after `new`.
#[derive(Clone, Copy, PartialEq, Eq, Debug)]
pub struct Node {
    pub x: usize,
    pub y: usize,
    pub active: bool,
    pub state: State,
    pub parent_coords: Option<(usize, usize)>,
}

impl Node {
    /// The cell at `(x, y)` before anything has happened to it.
    pub open spec fn fresh(x: usize, y: usize) -> Node {
        Node { x, y, active: false, state: State::Empty, parent_coords: None }
    }

    /// This cell after a visit from `(p_x, p_y)`: an empty cell becomes a
    /// visited, active cell that remembers where it was reached from; any
    /// other cell is left as it is.
    pub open spec fn visited_from(self, p_x: usize, p_y: usize) -> Node {
        if self.state == State::Empty {
            Node {
                active: true,
                state: State::Visited,
                parent_coords: Some((p_x, p_y)),
                ..self
            }
        } else {
            self
        }
    }

    /// This cell after it was asked to join the path: a visited cell joins,
    /// any other cell is left as it is.
    pub open spec fn marked(self) -> Node {
        if self.state == State::Visited {
            Node { state: State::Path, ..self }
        } else {
            self
        }
    }

    /// Where the walk towards the start goes on from this cell: to the parent
    /// of a visited cell, and nowhere from any other cell.
    pub open spec fn path_parent(self) -> Option<(usize, usize)> {
        if self.state == State::Visited {
            self.parent_coords
        } else {
            None
        }
    }

    pub fn new(x: usize, y: usize) -> (node: Node)
        ensures
            node == Node::fresh(x, y),
    {
        Node { x, y, state: State::Empty, active: false, parent_coords: None }
    }

    pub fn is_empty(&self) -> (b: bool)
        ensures
            b <==> self.state == State::Empty,
    {
        match self.state {
            State::Empty => true,
            _ => false,
        }
    }

    pub fn is_target(&self) -> (b: bool)
        ensures
            b <==> self.state == State::Target,
    {
        match self.state {
            State::Target => true,
            _ => false,
        }
    }

    pub fn is_visited(&self) -> (b: bool)
        ensures
            b <==> self.state == State::Visited,
    {
        match self.state {
            State::Visited => true,
            _ => false,
        }
    }

    /// Makes this cell the start of a search: a start cell is active.
    pub fn set_start(&mut self)
        ensures
            *final(self) == (Node { state: State::Start, active: true, ..*old(self) }),
    {
        self.state = State::Start;
        self.active = true;
    }

    /// Makes this cell the target of a search.
    pub fn set_target(&mut self)
        ensures
            *final(self) == (Node { state: State::Target, ..*old(self) }),
    {
        self.state = State::Target;
    }

    /// Discovers this cell from `(p_x, p_y)`. Only an empty cell can be
    /// discovered: on any other cell the call changes nothing, so no cell is
    /// discovered twice.
    pub fn visit(&mut self, p_x: usize, p_y: usize)
        ensures
            *final(self) == old(self).visited_from(p_x, p_y),
            old(self).state != State::Empty ==> *final(self) == *old(self),
            old(self).state == State::Empty ==> final(self).parent_coords == Some((p_x, p_y)),
    {
        match self.state {
            State::Empty => (),
            _ => return ,
        }
        self.state = State::Visited;
        self.active = true;
        self.parent_coords = Some((p_x, p_y))
    }

    /// Puts a visited cell on the path and returns the cell it was discovered
    /// from. Any other cell is left alone and `None` is returned.
    pub fn mark_path(&mut self) -> (parent: Option<(usize, usize)>)
        ensures
            *final(self) == old(self).marked(),
            parent == old(self).path_parent(),
    {
        if self.is_visited() {
            self.state = State::Path;
            self.parent_coords
        } else {
            None
        }
    }
}

} // verus!
