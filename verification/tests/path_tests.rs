use resource_collection::path::next_step;
use resource_collection::posmap::PosSet;
use resource_collection::types::Pos;

fn set(ps: &[(i32, i32)]) -> PosSet {
    let mut s = PosSet::new();
    for &(x, y) in ps {
        s.insert(Pos::new(x, y));
    }
    s
}

#[test]
fn no_step_when_already_there() {
    assert_eq!(next_step(Pos::new(1, 1), Pos::new(1, 1), 5, 5, &PosSet::new()), None);
}

#[test]
fn straight_line_step() {
    assert_eq!(next_step(Pos::new(0, 0), Pos::new(3, 0), 5, 5, &PosSet::new()), Some(Pos::new(1, 0)));
    assert_eq!(next_step(Pos::new(0, 3), Pos::new(0, 0), 5, 5, &PosSet::new()), Some(Pos::new(0, 2)));
}

#[test]
fn detour_around_a_wall() {
    // A wall at x = 1 for y = 0..3; the only way round is through y = 3.
    let wall = set(&[(1, 0), (1, 1), (1, 2)]);
    assert_eq!(next_step(Pos::new(0, 0), Pos::new(2, 0), 3, 4, &wall), Some(Pos::new(0, 1)));
    assert_eq!(next_step(Pos::new(0, 2), Pos::new(2, 0), 3, 4, &wall), Some(Pos::new(0, 3)));
}

#[test]
fn unreachable_goal() {
    let wall = set(&[(1, 0), (1, 1), (1, 2)]);
    assert_eq!(next_step(Pos::new(0, 0), Pos::new(2, 0), 3, 3, &wall), None);
}

#[test]
fn goal_is_enterable_even_when_listed() {
    let blocked = set(&[(2, 0)]);
    assert_eq!(next_step(Pos::new(1, 0), Pos::new(2, 0), 5, 5, &blocked), Some(Pos::new(2, 0)));
}

#[test]
fn goal_off_the_map() {
    assert_eq!(next_step(Pos::new(0, 0), Pos::new(5, 0), 5, 5, &PosSet::new()), None);
}

#[test]
fn start_off_the_map_can_step_in() {
    assert_eq!(next_step(Pos::new(-1, 0), Pos::new(2, 0), 5, 5, &PosSet::new()), Some(Pos::new(0, 0)));
}

#[test]
fn empty_grid_has_no_path() {
    assert_eq!(next_step(Pos::new(0, 0), Pos::new(1, 0), 0, 0, &PosSet::new()), None);
}

#[test]
fn following_steps_reaches_the_goal_in_shortest_time() {
    let wall = set(&[(2, 0), (2, 1), (2, 2), (2, 3)]);
    let goal = Pos::new(4, 0);
    let mut p = Pos::new(0, 0);
    let mut steps = 0;
    while let Some(n) = next_step(p, goal, 5, 5, &wall) {
        assert_eq!(p.manhattan(n), 1);
        p = n;
        steps += 1;
        assert!(steps <= 25);
    }
    assert_eq!(p, goal);
    // Down to row 4, across, and back up: 4 + 4 + 4.
    assert_eq!(steps, 12);
}

#[test]
fn ties_go_to_the_lowest_move() {
    // Right comes before down, left before up.
    assert_eq!(next_step(Pos::new(0, 0), Pos::new(2, 2), 5, 5, &PosSet::new()), Some(Pos::new(1, 0)));
    assert_eq!(next_step(Pos::new(2, 2), Pos::new(0, 0), 5, 5, &PosSet::new()), Some(Pos::new(1, 2)));
    // Down before up.
    let wall = set(&[(3, 1), (3, 2), (3, 3)]);
    assert_eq!(next_step(Pos::new(2, 2), Pos::new(4, 2), 5, 5, &wall), Some(Pos::new(2, 3)));
}
