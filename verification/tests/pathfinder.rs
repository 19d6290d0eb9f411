use pathfinder::matrix::Matrix;
use pathfinder::node::State;
use pathfinder::pathfinder::check_window;
use pathfinder::pathfinder::get_grid_dimensions;
use pathfinder::pathfinder::solving_class;
use pathfinder::pathfinder::Msg;
use pathfinder::pathfinder::Pathfinder;
use pathfinder::pathfinder::Stage;
use pathfinder::pathfinder::CELL_HEIGHT;
use pathfinder::pathfinder::CELL_WIDTH;

fn states_in(matrix: &Matrix, state: State) -> Vec<(usize, usize)> {
    let mut v = vec![];
    for row in matrix.clone().into_rows() {
        for node in row {
            if node.state == state {
                v.push((node.x, node.y));
            }
        }
    }
    v
}

fn send(session: &mut Pathfinder, msg: Msg) -> bool {
    session.update(msg, 300, 300)
}

fn click(session: &mut Pathfinder, i: usize, j: usize) -> bool {
    let redraw = send(session, Msg::MouseDown(i, j));
    send(session, Msg::MouseUp);
    redraw
}

/// A session on a grid of six rows and eight columns with the start at
/// (1, 1) and the target at (1, 5), ready to search.
fn ready() -> Pathfinder {
    let mut s = Pathfinder::create(300, 300);
    click(&mut s, 1, 1);
    click(&mut s, 1, 5);
    s
}

fn finished() -> Pathfinder {
    let mut s = ready();
    send(&mut s, Msg::Start);
    let mut ticks = 0;
    while s.stage() != Stage::Done {
        assert!(send(&mut s, Msg::NextTick));
        ticks += 1;
        assert!(ticks < 1000);
    }
    s
}

#[test]
fn cells_are_thirty_by_thirty() {
    assert_eq!(CELL_WIDTH, 30);
    assert_eq!(CELL_HEIGHT, 30);
}

#[test]
fn grid_dimensions_leave_four_rows_and_two_columns_free() {
    assert_eq!(get_grid_dimensions(600, 900), (16, 28));
    assert_eq!(get_grid_dimensions(150, 90), (1, 1));
    assert_eq!(get_grid_dimensions(179, 119), (1, 1));
    assert_eq!(get_grid_dimensions(180, 120), (2, 2));
    assert_eq!(get_grid_dimensions(1080, 1920), (32, 62));
}

#[test]
fn window_must_have_room_for_one_cell() {
    assert!(check_window(150, 90));
    assert!(!check_window(149, 90));
    assert!(!check_window(150, 89));
    assert!(!check_window(0, 0));
    assert!(check_window(600, 900));
}

#[test]
fn board_is_marked_while_the_search_runs() {
    assert_eq!(solving_class(Stage::Started), Some(String::from("solving")));
    assert_eq!(solving_class(Stage::Init), None);
    assert_eq!(solving_class(Stage::StartSet), None);
    assert_eq!(solving_class(Stage::TargetSet), None);
    assert_eq!(solving_class(Stage::Paused), None);
    assert_eq!(solving_class(Stage::Done), None);
}

#[test]
fn session_begins_on_a_fresh_grid() {
    let s = Pathfinder::create(300, 300);
    assert_eq!(s.stage(), Stage::Init);
    assert_eq!(s.start(), None);
    assert_eq!(s.target(), None);
    assert_eq!(s.steps(), 0);
    assert_eq!(s.matrix().height(), 6);
    assert_eq!(s.matrix().width(), 8);
    assert_eq!(states_in(s.matrix(), State::Empty).len(), 48);
    assert!(s.matrix().frontier().is_empty());
}

#[test]
fn first_click_places_the_start() {
    let mut s = Pathfinder::create(300, 300);
    assert!(send(&mut s, Msg::MouseDown(2, 3)));
    assert_eq!(s.stage(), Stage::Init);
    assert_eq!(s.start(), Some((2, 3)));
    assert_eq!(s.matrix().state(2, 3), State::Start);
    assert_eq!(*s.matrix().frontier(), vec![(2, 3)]);
    assert!(s.matrix().node(2, 3).active);
    assert!(send(&mut s, Msg::MouseUp));
    assert_eq!(s.stage(), Stage::StartSet);
}

#[test]
fn dragging_while_placing_the_start_moves_it() {
    let mut s = Pathfinder::create(300, 300);
    assert!(send(&mut s, Msg::MouseDown(2, 3)));
    assert!(send(&mut s, Msg::MouseHover(2, 4)));
    assert!(send(&mut s, Msg::MouseHover(3, 4)));
    assert_eq!(s.start(), Some((3, 4)));
    assert_eq!(states_in(s.matrix(), State::Start), vec![(3, 4)]);
    assert_eq!(s.matrix().state(2, 3), State::Empty);
    assert_eq!(s.matrix().state(2, 4), State::Empty);
    assert!(!s.matrix().node(2, 3).active);
    assert_eq!(*s.matrix().frontier(), vec![(3, 4)]);
}

#[test]
fn hover_without_the_button_does_nothing() {
    let mut s = Pathfinder::create(300, 300);
    assert!(!send(&mut s, Msg::MouseHover(2, 3)));
    assert_eq!(s.start(), None);
    assert_eq!(states_in(s.matrix(), State::Empty).len(), 48);
}

#[test]
fn releasing_before_the_start_is_placed_keeps_the_stage() {
    let mut s = Pathfinder::create(300, 300);
    assert!(!send(&mut s, Msg::MouseUp));
    assert_eq!(s.stage(), Stage::Init);
}

#[test]
fn target_cannot_go_where_the_start_is() {
    let mut s = Pathfinder::create(300, 300);
    click(&mut s, 1, 1);
    assert!(!send(&mut s, Msg::MouseDown(1, 1)));
    assert_eq!(s.target(), None);
    assert!(!send(&mut s, Msg::MouseUp));
    assert_eq!(s.stage(), Stage::StartSet);
    assert_eq!(s.matrix().state(1, 1), State::Start);
}

#[test]
fn second_click_places_the_target() {
    let mut s = Pathfinder::create(300, 300);
    click(&mut s, 1, 1);
    assert!(send(&mut s, Msg::MouseDown(4, 6)));
    assert_eq!(s.target(), Some((4, 6)));
    assert_eq!(s.matrix().state(4, 6), State::Target);
    assert!(send(&mut s, Msg::MouseHover(4, 7)));
    assert_eq!(s.target(), Some((4, 7)));
    assert_eq!(s.matrix().state(4, 6), State::Empty);
    assert_eq!(states_in(s.matrix(), State::Target), vec![(4, 7)]);
    assert!(send(&mut s, Msg::MouseUp));
    assert_eq!(s.stage(), Stage::TargetSet);
    assert_eq!(*s.matrix().frontier(), vec![(1, 1)]);
}

#[test]
fn stroke_from_a_free_cell_draws_walls() {
    let mut s = ready();
    assert!(send(&mut s, Msg::MouseDown(0, 3)));
    assert!(send(&mut s, Msg::MouseHover(1, 3)));
    assert!(send(&mut s, Msg::MouseHover(2, 3)));
    // start and target are not drawn over
    assert!(!send(&mut s, Msg::MouseHover(1, 1)));
    assert!(!send(&mut s, Msg::MouseHover(1, 5)));
    assert!(!send(&mut s, Msg::MouseUp));
    assert_eq!(states_in(s.matrix(), State::Wall), vec![(0, 3), (1, 3), (2, 3)]);
    assert_eq!(s.matrix().state(1, 1), State::Start);
    assert_eq!(s.matrix().state(1, 5), State::Target);
    assert_eq!(s.stage(), Stage::TargetSet);
}

#[test]
fn stroke_from_a_wall_erases_walls() {
    let mut s = ready();
    send(&mut s, Msg::MouseDown(0, 3));
    send(&mut s, Msg::MouseHover(1, 3));
    send(&mut s, Msg::MouseHover(2, 3));
    send(&mut s, Msg::MouseUp);
    assert!(send(&mut s, Msg::MouseDown(1, 3)));
    assert!(send(&mut s, Msg::MouseHover(2, 3)));
    // over a free cell the erasing stroke leaves the cell free
    assert!(send(&mut s, Msg::MouseHover(3, 3)));
    send(&mut s, Msg::MouseUp);
    assert_eq!(states_in(s.matrix(), State::Wall), vec![(0, 3)]);
    assert_eq!(s.matrix().state(3, 3), State::Empty);
}

#[test]
fn stroke_that_carries_the_start_leaves_walls_alone() {
    let mut s = ready();
    click(&mut s, 1, 2);
    assert_eq!(s.matrix().state(1, 2), State::Wall);
    assert!(!send(&mut s, Msg::MouseDown(1, 1)));
    assert!(!send(&mut s, Msg::MouseHover(1, 2)));
    assert_eq!(s.matrix().state(1, 2), State::Wall);
    assert_eq!(s.start(), Some((1, 1)));
    assert!(send(&mut s, Msg::MouseHover(2, 2)));
    assert_eq!(s.start(), Some((2, 2)));
    assert_eq!(s.matrix().state(1, 1), State::Empty);
    assert_eq!(s.matrix().state(2, 2), State::Start);
    assert_eq!(*s.matrix().frontier(), vec![(2, 2)]);
    send(&mut s, Msg::MouseUp);
    // the next stroke starts anew
    assert!(send(&mut s, Msg::MouseDown(5, 5)));
    assert_eq!(s.matrix().state(5, 5), State::Wall);
}

#[test]
fn stroke_that_carries_the_target_moves_it() {
    let mut s = ready();
    assert!(!send(&mut s, Msg::MouseDown(1, 5)));
    assert!(send(&mut s, Msg::MouseHover(2, 5)));
    assert!(!send(&mut s, Msg::MouseHover(1, 1)));
    assert_eq!(s.target(), Some((2, 5)));
    assert_eq!(states_in(s.matrix(), State::Target), vec![(2, 5)]);
    assert_eq!(states_in(s.matrix(), State::Start), vec![(1, 1)]);
}

#[test]
fn start_button_starts_pauses_and_resumes() {
    let mut s = Pathfinder::create(300, 300);
    assert!(!send(&mut s, Msg::Start));
    assert_eq!(s.stage(), Stage::Init);
    click(&mut s, 1, 1);
    assert!(!send(&mut s, Msg::Start));
    assert_eq!(s.stage(), Stage::StartSet);
    click(&mut s, 1, 5);
    assert!(send(&mut s, Msg::Start));
    assert_eq!(s.stage(), Stage::Started);
    assert!(send(&mut s, Msg::Start));
    assert_eq!(s.stage(), Stage::Paused);
    assert!(send(&mut s, Msg::Start));
    assert_eq!(s.stage(), Stage::Started);
}

#[test]
fn ticks_count_only_while_the_search_runs() {
    let mut s = ready();
    assert!(!send(&mut s, Msg::NextTick));
    assert_eq!(s.steps(), 0);
    send(&mut s, Msg::Start);
    assert!(send(&mut s, Msg::NextTick));
    assert_eq!(s.steps(), 1);
    assert_eq!(states_in(s.matrix(), State::Visited).len(), 4);
    send(&mut s, Msg::Start);
    assert_eq!(s.stage(), Stage::Paused);
    assert!(!send(&mut s, Msg::NextTick));
    assert_eq!(s.steps(), 1);
    assert_eq!(states_in(s.matrix(), State::Visited).len(), 4);
}

#[test]
fn pointer_does_nothing_while_the_search_runs_or_pauses() {
    let mut s = ready();
    send(&mut s, Msg::Start);
    assert!(!click(&mut s, 3, 3));
    assert_eq!(s.matrix().state(3, 3), State::Empty);
    send(&mut s, Msg::Start);
    assert!(!click(&mut s, 3, 3));
    assert_eq!(s.matrix().state(3, 3), State::Empty);
    assert_eq!(s.stage(), Stage::Paused);
}

#[test]
fn search_runs_tick_by_tick_until_done() {
    let mut s = ready();
    send(&mut s, Msg::Start);
    for tick in 1..=3 {
        assert!(send(&mut s, Msg::NextTick));
        assert_eq!(s.stage(), Stage::Started);
        assert_eq!(s.steps(), tick);
    }
    assert!(send(&mut s, Msg::NextTick));
    assert_eq!(s.stage(), Stage::Done);
    assert_eq!(s.steps(), 3);
    assert_eq!(states_in(s.matrix(), State::Path), vec![(1, 2), (1, 3), (1, 4)]);
    assert!(!send(&mut s, Msg::NextTick));
    assert!(!send(&mut s, Msg::Start));
    assert_eq!(s.stage(), Stage::Done);
}

#[test]
fn moving_the_target_after_the_search_searches_anew() {
    let mut s = finished();
    assert!(!send(&mut s, Msg::MouseDown(1, 5)));
    assert!(send(&mut s, Msg::MouseHover(1, 6)));
    assert_eq!(s.stage(), Stage::Done);
    assert_eq!(s.target(), Some((1, 6)));
    assert_eq!(states_in(s.matrix(), State::Path), vec![(1, 2), (1, 3), (1, 4), (1, 5)]);
    assert!(send(&mut s, Msg::MouseHover(1, 3)));
    assert_eq!(states_in(s.matrix(), State::Path), vec![(1, 2)]);
    assert_eq!(states_in(s.matrix(), State::Target), vec![(1, 3)]);
    assert_eq!(states_in(s.matrix(), State::Start), vec![(1, 1)]);
    send(&mut s, Msg::MouseUp);
    assert_eq!(s.stage(), Stage::Done);
}

#[test]
fn moving_the_start_after_the_search_searches_anew() {
    let mut s = finished();
    assert!(!send(&mut s, Msg::MouseDown(1, 1)));
    assert!(send(&mut s, Msg::MouseHover(1, 2)));
    assert_eq!(s.start(), Some((1, 2)));
    assert_eq!(states_in(s.matrix(), State::Start), vec![(1, 2)]);
    assert_eq!(states_in(s.matrix(), State::Path), vec![(1, 3), (1, 4)]);
    assert_eq!(s.matrix().state(1, 1), State::Visited);
    assert_eq!(s.matrix().node(1, 2).parent_coords, None);
    // the count of ticks is not touched by a new search
    assert_eq!(s.steps(), 3);
}

#[test]
fn drawing_a_wall_after_the_search_searches_anew() {
    let mut s = finished();
    assert!(send(&mut s, Msg::MouseDown(1, 3)));
    assert_eq!(s.matrix().state(1, 3), State::Wall);
    let path = states_in(s.matrix(), State::Path);
    assert_eq!(path.len(), 5);
    assert!(!path.contains(&(1, 3)));
    send(&mut s, Msg::MouseUp);
    // walling the target in leaves no path
    let mut t = finished();
    for c in [(0, 5), (2, 5), (1, 4), (1, 6)] {
        click(&mut t, c.0, c.1);
    }
    assert!(states_in(t.matrix(), State::Path).is_empty());
    assert!(t.matrix().frontier().is_empty());
    assert_eq!(states_in(t.matrix(), State::Wall).len(), 4);
}

#[test]
fn clear_keeps_what_was_placed_and_forgets_the_search() {
    let mut s = finished();
    click(&mut s, 4, 4);
    s.clear();
    assert_eq!(states_in(s.matrix(), State::Start), vec![(1, 1)]);
    assert_eq!(states_in(s.matrix(), State::Target), vec![(1, 5)]);
    assert_eq!(states_in(s.matrix(), State::Wall), vec![(4, 4)]);
    assert!(states_in(s.matrix(), State::Visited).is_empty());
    assert!(states_in(s.matrix(), State::Path).is_empty());
    assert_eq!(states_in(s.matrix(), State::Empty).len(), 45);
    assert_eq!(*s.matrix().frontier(), vec![(1, 1)]);
    for row in s.matrix().clone().into_rows() {
        for node in row {
            assert_eq!(node.parent_coords, None);
            assert_eq!(node.active, node.state == State::Start);
        }
    }
}

#[test]
fn update_solution_is_clear_and_solve() {
    let mut a = finished();
    let mut b = finished();
    a.update_solution();
    b.clear();
    b.solve();
    assert_eq!(a.matrix().clone().into_rows(), b.matrix().clone().into_rows());
    assert_eq!(*a.matrix().frontier(), *b.matrix().frontier());
    assert_eq!(states_in(a.matrix(), State::Path), vec![(1, 2), (1, 3), (1, 4)]);
}

#[test]
fn reset_begins_again_on_a_fresh_grid() {
    let mut s = finished();
    assert!(s.update(Msg::Reset, 300, 300));
    let begun = Pathfinder::create(300, 300);
    assert_eq!(s.stage(), Stage::Init);
    assert_eq!(s.start(), None);
    assert_eq!(s.target(), None);
    assert_eq!(s.matrix().clone().into_rows(), begun.matrix().clone().into_rows());
    assert!(s.matrix().frontier().is_empty());
    // a release does not end the stage before a start is placed again
    assert!(!send(&mut s, Msg::MouseUp));
    assert_eq!(s.stage(), Stage::Init);
}

#[test]
fn reset_follows_the_window() {
    let mut s = ready();
    assert!(s.update(Msg::Reset, 150, 240));
    assert_eq!(s.matrix().height(), 1);
    assert_eq!(s.matrix().width(), 6);
    assert!(click(&mut s, 0, 5));
    assert_eq!(s.start(), Some((0, 5)));
}

#[test]
fn set_start_moves_a_start_that_was_placed() {
    let mut s = Pathfinder::create(300, 300);
    s.set_start(0, 0);
    s.set_start(5, 7);
    assert_eq!(s.start(), Some((5, 7)));
    assert_eq!(states_in(s.matrix(), State::Start), vec![(5, 7)]);
    assert_eq!(s.matrix().state(0, 0), State::Empty);
    assert!(!s.matrix().node(0, 0).active);
    assert_eq!(*s.matrix().frontier(), vec![(5, 7)]);
    s.set_start(5, 7);
    assert_eq!(states_in(s.matrix(), State::Start), vec![(5, 7)]);
    assert_eq!(*s.matrix().frontier(), vec![(5, 7)]);
}

#[test]
fn set_target_moves_a_target_that_was_placed() {
    let mut s = Pathfinder::create(300, 300);
    s.set_target(0, 0);
    s.set_target(2, 2);
    assert_eq!(s.target(), Some((2, 2)));
    assert_eq!(states_in(s.matrix(), State::Target), vec![(2, 2)]);
    assert_eq!(s.matrix().state(0, 0), State::Empty);
    assert!(s.matrix().frontier().is_empty());
}

fn in_order(session: &Pathfinder) {
    let starts = states_in(session.matrix(), State::Start);
    let targets = states_in(session.matrix(), State::Target);
    match session.start() {
        Some(c) => assert_eq!(starts, vec![c]),
        None => assert!(starts.is_empty()),
    }
    match session.target() {
        Some(c) => assert_eq!(targets, vec![c]),
        None => assert!(targets.is_empty()),
    }
    if session.stage() == Stage::Init {
        assert_eq!(session.target(), None);
    } else {
        assert!(session.start().is_some());
    }
    if session.stage() != Stage::Init && session.stage() != Stage::StartSet {
        assert!(session.target().is_some());
    }
    for row in session.matrix().clone().into_rows() {
        for node in row {
            let reached = node.state == State::Visited || node.state == State::Path;
            assert_eq!(node.parent_coords.is_some(), reached);
        }
    }
}

#[test]
fn session_stays_in_order_whatever_comes() {
    let mut s = Pathfinder::create(300, 300);
    in_order(&s);
    let mut seed: u64 = 987654321;
    for _ in 0..3000 {
        seed = seed.wrapping_mul(6364136223846793005).wrapping_add(1442695040888963407);
        let kind = ((seed >> 33) % 16) as usize;
        let i = ((seed >> 40) as usize) % s.matrix().height();
        let j = ((seed >> 50) as usize) % s.matrix().width();
        let msg = match kind {
            0..=2 => Msg::NextTick,
            3..=6 => Msg::MouseDown(i, j),
            7..=10 => Msg::MouseHover(i, j),
            11..=13 => Msg::MouseUp,
            14 => Msg::Start,
            _ => {
                if (seed >> 60) % 4 == 0 {
                    Msg::Reset
                } else {
                    Msg::Start
                }
            }
        };
        let window = if (seed >> 37) % 2 == 0 { (300, 300) } else { (240, 180) };
        s.update(msg, window.0, window.1);
        in_order(&s);
    }
}
