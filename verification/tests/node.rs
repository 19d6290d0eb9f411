use pathfinder::node::state_class;
use pathfinder::node::state_symbol;
use pathfinder::node::Node;
use pathfinder::node::State;

#[test]
fn new_cell_is_empty_inactive_and_has_no_parent() {
    let n = Node::new(3, 7);
    assert_eq!(n.x, 3);
    assert_eq!(n.y, 7);
    assert_eq!(n.state, State::Empty);
    assert!(!n.active);
    assert_eq!(n.parent_coords, None);
    assert!(n.is_empty());
    assert!(!n.is_target());
    assert!(!n.is_visited());
}

#[test]
fn visit_discovers_an_empty_cell() {
    let mut n = Node::new(2, 2);
    n.visit(1, 2);
    assert_eq!(n.state, State::Visited);
    assert!(n.active);
    assert_eq!(n.parent_coords, Some((1, 2)));
    assert_eq!(n.x, 2);
    assert_eq!(n.y, 2);
    assert!(n.is_visited());
}

#[test]
fn visit_changes_nothing_on_a_cell_that_is_not_empty() {
    let states = [State::Start, State::Visited, State::Path, State::Target, State::Wall];
    for state in states {
        for active in [false, true] {
            for parent in [None, Some((4, 5))] {
                let before = Node { x: 1, y: 2, active, state, parent_coords: parent };
                let mut n = before;
                n.visit(8, 9);
                assert_eq!(n, before);
            }
        }
    }
}

#[test]
fn a_second_visit_keeps_the_first_parent() {
    let mut n = Node::new(0, 0);
    n.visit(0, 1);
    n.visit(1, 0);
    assert_eq!(n.parent_coords, Some((0, 1)));
    assert_eq!(n.state, State::Visited);
}

#[test]
fn mark_path_puts_a_visited_cell_on_the_path_and_returns_its_parent() {
    let mut n = Node::new(2, 3);
    n.visit(2, 2);
    assert_eq!(n.mark_path(), Some((2, 2)));
    assert_eq!(n.state, State::Path);
    assert_eq!(n.parent_coords, Some((2, 2)));
    assert!(n.active);
}

#[test]
fn mark_path_on_a_visited_cell_without_parent_returns_none_and_marks_it() {
    let mut n = Node { x: 0, y: 0, active: false, state: State::Visited, parent_coords: None };
    assert_eq!(n.mark_path(), None);
    assert_eq!(n.state, State::Path);
}

#[test]
fn mark_path_leaves_every_other_cell_alone() {
    let states = [State::Empty, State::Start, State::Path, State::Target, State::Wall];
    for state in states {
        let before = Node { x: 1, y: 1, active: true, state, parent_coords: Some((0, 1)) };
        let mut n = before;
        assert_eq!(n.mark_path(), None);
        assert_eq!(n, before);
    }
}

#[test]
fn a_path_cell_is_not_marked_twice() {
    let mut n = Node::new(1, 1);
    n.visit(0, 1);
    assert_eq!(n.mark_path(), Some((0, 1)));
    assert_eq!(n.mark_path(), None);
    assert_eq!(n.state, State::Path);
}

#[test]
fn predicates_tell_the_states_apart() {
    let states =
        [State::Empty, State::Start, State::Visited, State::Path, State::Target, State::Wall];
    for state in states {
        let n = Node { x: 0, y: 0, active: false, state, parent_coords: None };
        assert_eq!(n.is_empty(), state == State::Empty);
        assert_eq!(n.is_target(), state == State::Target);
        assert_eq!(n.is_visited(), state == State::Visited);
    }
}

#[test]
fn set_start_makes_an_active_start() {
    let mut n = Node::new(4, 4);
    n.set_start();
    assert_eq!(n, Node { x: 4, y: 4, active: true, state: State::Start, parent_coords: None });
}

#[test]
fn set_target_changes_the_state_only() {
    let mut n = Node::new(4, 4);
    n.set_target();
    assert_eq!(n, Node { x: 4, y: 4, active: false, state: State::Target, parent_coords: None });
    let mut m = Node { x: 1, y: 0, active: true, state: State::Start, parent_coords: None };
    m.set_target();
    assert_eq!(m, Node { x: 1, y: 0, active: true, state: State::Target, parent_coords: None });
}

#[test]
fn every_state_has_its_class() {
    assert_eq!(state_class(State::Path), "path pop");
    assert_eq!(state_class(State::Empty), "empty");
    assert_eq!(state_class(State::Start), "start pop");
    assert_eq!(state_class(State::Wall), "wall pop");
    assert_eq!(state_class(State::Visited), "visited");
    assert_eq!(state_class(State::Target), "target pop");
}

#[test]
fn every_state_has_its_symbol() {
    assert_eq!(state_symbol(State::Empty), ' ');
    assert_eq!(state_symbol(State::Visited), '_');
    assert_eq!(state_symbol(State::Start), 'O');
    assert_eq!(state_symbol(State::Path), '+');
    assert_eq!(state_symbol(State::Target), 'x');
    assert_eq!(state_symbol(State::Wall), '#');
}
