use resource_collection::knowledge::Knowledge;
use resource_collection::map::{Resource, RobotView, World};
use resource_collection::message::Message;
use resource_collection::posmap::PosSet;
use resource_collection::robot::{
    advance, collect_here, collector_act, greedy_step, random_walk, refresh_target, scout_move, scout_tick, sense,
    State,
};
use resource_collection::types::{Pos, ResourceKind, RobotKind};

fn world_with(width: i32, height: i32, blocked: &[(i32, i32)]) -> World {
    let mut mask = vec![false; (width * height) as usize];
    for &(x, y) in blocked {
        mask[(y * width + x) as usize] = true;
    }
    World::with_terrain(width, height, &mask)
}

fn add_robot(w: &mut World, kind: RobotKind, pos: Pos) -> usize {
    w.robots.push(RobotView { kind, pos, carrying: None });
    w.robots.len() - 1
}

fn state(id: usize, pos: Pos) -> State {
    State { id, pos, carrying: None, target: None, dir: (1, 0) }
}

#[test]
fn sense_reports_obstacles_and_resources() {
    let mut w = world_with(7, 7, &[(0, 1)]);
    w.resources.insert(Pos::new(1, 2), Resource { kind: ResourceKind::Crystal, remaining: 33 });
    let mut msgs = Vec::new();
    sense(&w, Pos::new(1, 1), &mut msgs);
    assert_eq!(
        msgs,
        vec![
            Message::FoundObstacle { pos: Pos::new(0, 1) },
            Message::FoundResource { pos: Pos::new(1, 2), kind: ResourceKind::Crystal, qty: 33 },
        ]
    );
    let mut edge = Vec::new();
    sense(&w, Pos::new(0, 0), &mut edge);
    assert_eq!(edge, vec![Message::FoundObstacle { pos: Pos::new(0, 1) }]);
}

#[test]
fn greedy_step_prefers_the_closest_then_the_first() {
    let mut w = world_with(7, 7, &[]);
    let obstacles = PosSet::new();
    assert_eq!(greedy_step(Pos::new(1, 1), Pos::new(5, 1), 0, &w, &obstacles), Some(Pos::new(2, 1)));
    // Goal diagonal: right and down tie; right comes first.
    assert_eq!(greedy_step(Pos::new(1, 1), Pos::new(5, 5), 0, &w, &obstacles), Some(Pos::new(2, 1)));
    let id = add_robot(&mut w, RobotKind::Collector, Pos::new(0, 0));
    add_robot(&mut w, RobotKind::Scout, Pos::new(2, 1));
    assert_eq!(greedy_step(Pos::new(1, 1), Pos::new(5, 5), id, &w, &obstacles), Some(Pos::new(1, 2)));
}

#[test]
fn greedy_step_avoids_known_obstacles() {
    let w = world_with(3, 3, &[]);
    let mut obstacles = PosSet::new();
    obstacles.insert(Pos::new(1, 0));
    obstacles.insert(Pos::new(0, 1));
    assert_eq!(greedy_step(Pos::new(0, 0), Pos::new(2, 2), 0, &w, &obstacles), None);
}

#[test]
fn random_walk_stays_on_free_neighbours() {
    let w = world_with(5, 5, &[(0, 1)]);
    let mut rng = rand::thread_rng();
    for _ in 0..20 {
        let p = random_walk(&w, 0, Pos::new(0, 0), &mut rng).unwrap();
        assert_eq!(p, Pos::new(1, 0));
    }
    let hemmed = world_with(7, 7, &[(1, 0), (0, 1)]);
    assert_eq!(random_walk(&hemmed, 0, Pos::new(0, 0), &mut rng), None);
}

#[test]
fn collect_one_unit() {
    let mut w = world_with(5, 5, &[]);
    let t = Pos::new(4, 4);
    w.resources.insert(t, Resource { kind: ResourceKind::Energy, remaining: 3 });
    let mut st = state(0, t);
    st.target = Some(t);
    let mut msgs = Vec::new();
    collect_here(&mut w, t, &mut st, &mut msgs);
    assert_eq!(st.carrying, Some(ResourceKind::Energy));
    assert_eq!(st.target, None);
    assert_eq!(w.resources.value_at(w.resources.find(t).unwrap()).remaining, 2);
    assert_eq!(msgs, vec![Message::FoundResource { pos: t, kind: ResourceKind::Energy, qty: 2 }]);
}

#[test]
fn collect_the_last_unit_depletes() {
    let mut w = world_with(5, 5, &[]);
    let t = Pos::new(4, 4);
    w.resources.insert(t, Resource { kind: ResourceKind::Crystal, remaining: 1 });
    let mut st = state(0, t);
    let mut msgs = Vec::new();
    collect_here(&mut w, t, &mut st, &mut msgs);
    assert_eq!(st.carrying, Some(ResourceKind::Crystal));
    assert!(!w.resources.contains_key(t));
    assert_eq!(msgs, vec![Message::Deplete { pos: t }]);
}

#[test]
fn collect_where_nothing_is_left() {
    let mut w = world_with(5, 5, &[]);
    let t = Pos::new(4, 4);
    let mut st = state(0, t);
    st.target = Some(t);
    let mut msgs = Vec::new();
    collect_here(&mut w, t, &mut st, &mut msgs);
    assert_eq!(st.carrying, None);
    assert_eq!(st.target, None);
    assert_eq!(msgs, vec![Message::Deplete { pos: t }]);
    w.resources.insert(t, Resource { kind: ResourceKind::Crystal, remaining: 0 });
    let mut msgs2 = Vec::new();
    collect_here(&mut w, t, &mut st, &mut msgs2);
    assert!(!w.resources.contains_key(t));
    assert_eq!(msgs2, vec![Message::Deplete { pos: t }]);
}

#[test]
fn advance_follows_the_known_path() {
    let w = world_with(5, 5, &[]);
    let mut rng = rand::thread_rng();
    let mut pos = Pos::new(0, 0);
    let mut msgs = Vec::new();
    advance(&w, 0, &mut pos, Pos::new(3, 0), &PosSet::new(), &mut msgs, &mut rng);
    assert_eq!(pos, Pos::new(1, 0));
    assert!(msgs.is_empty());
}

#[test]
fn advance_reports_an_unknown_obstacle() {
    let w = world_with(5, 5, &[(1, 0)]);
    let mut rng = rand::thread_rng();
    let mut pos = Pos::new(0, 0);
    let mut msgs = Vec::new();
    advance(&w, 0, &mut pos, Pos::new(3, 0), &PosSet::new(), &mut msgs, &mut rng);
    assert_eq!(msgs, vec![Message::FoundObstacle { pos: Pos::new(1, 0) }]);
    // The greedy fallback takes the only free neighbour.
    assert_eq!(pos, Pos::new(0, 1));
}

#[test]
fn advance_waits_when_boxed_in() {
    let mut w = world_with(5, 5, &[(1, 0)]);
    let me = add_robot(&mut w, RobotKind::Collector, Pos::new(0, 0));
    add_robot(&mut w, RobotKind::Scout, Pos::new(0, 1));
    let mut rng = rand::thread_rng();
    let mut pos = Pos::new(0, 0);
    let mut msgs = Vec::new();
    advance(&w, me, &mut pos, Pos::new(3, 0), &PosSet::new(), &mut msgs, &mut rng);
    assert_eq!(pos, Pos::new(0, 0));
}

#[test]
fn scout_keeps_moving_and_reports() {
    let mut w = world_with(9, 9, &[(0, 1)]);
    w.resources.insert(Pos::new(1, 2), Resource { kind: ResourceKind::Energy, remaining: 70 });
    let id = add_robot(&mut w, RobotKind::Scout, Pos::new(1, 1));
    let mut st = state(id, Pos::new(1, 1));
    let known = PosSet::new();
    let mut rng = rand::thread_rng();
    let msgs = scout_tick(&mut st, &mut w, &known, &mut rng);
    assert_eq!(
        msgs,
        vec![
            Message::FoundObstacle { pos: Pos::new(0, 1) },
            Message::FoundResource { pos: Pos::new(1, 2), kind: ResourceKind::Energy, qty: 70 },
        ]
    );
    assert_eq!(st.pos.manhattan(Pos::new(1, 1)), 1);
    assert!(!w.is_obstacle(st.pos));
    assert_eq!(w.robots[id].pos, st.pos);
    assert_eq!(w.resources.len(), 1);
}

#[test]
fn scout_in_a_dead_end_turns_back() {
    // Corridor along row 0 ending at x = 0.
    let blocked: Vec<(i32, i32)> = (0..5).map(|x| (x, 1)).collect();
    let mut w = world_with(5, 5, &blocked);
    let id = add_robot(&mut w, RobotKind::Scout, Pos::new(0, 0));
    let mut st = State { id, pos: Pos::new(0, 0), carrying: None, target: None, dir: (-1, 0) };
    let mut rng = rand::thread_rng();
    scout_tick(&mut st, &mut w, &PosSet::new(), &mut rng);
    assert_eq!(st.pos, Pos::new(1, 0));
    assert_eq!(st.dir, (1, 0));
}

#[test]
fn scout_boxed_in_stays() {
    let mut w = world_with(7, 7, &[(1, 0), (0, 1)]);
    let id = add_robot(&mut w, RobotKind::Scout, Pos::new(0, 0));
    let mut st = state(id, Pos::new(0, 0));
    let mut rng = rand::thread_rng();
    scout_tick(&mut st, &mut w, &PosSet::new(), &mut rng);
    assert_eq!(st.pos, Pos::new(0, 0));
}

#[test]
fn refresh_claims_the_nearest() {
    let mut k = Knowledge::new();
    k.apply_message(&Message::FoundResource { pos: Pos::new(5, 5), kind: ResourceKind::Energy, qty: 9 });
    k.apply_message(&Message::FoundResource { pos: Pos::new(1, 0), kind: ResourceKind::Crystal, qty: 9 });
    let mut st = state(3, Pos::new(0, 0));
    let mut msgs = Vec::new();
    refresh_target(&mut st, &k, &mut msgs);
    assert_eq!(st.target, Some(Pos::new(1, 0)));
    assert_eq!(msgs, vec![Message::Claim { id: 3, pos: Pos::new(1, 0) }]);
}

#[test]
fn refresh_drops_a_target_claimed_by_another() {
    let mut k = Knowledge::new();
    k.apply_message(&Message::FoundResource { pos: Pos::new(1, 0), kind: ResourceKind::Crystal, qty: 9 });
    k.apply_message(&Message::Claim { id: 9, pos: Pos::new(1, 0) });
    let mut st = state(3, Pos::new(0, 0));
    st.target = Some(Pos::new(1, 0));
    let mut msgs = Vec::new();
    refresh_target(&mut st, &k, &mut msgs);
    assert_eq!(st.target, None);
    assert!(msgs.is_empty());
}

#[test]
fn refresh_keeps_a_loaded_collector_without_target() {
    let mut k = Knowledge::new();
    k.apply_message(&Message::FoundResource { pos: Pos::new(1, 0), kind: ResourceKind::Crystal, qty: 9 });
    let mut st = state(3, Pos::new(0, 0));
    st.carrying = Some(ResourceKind::Energy);
    let mut msgs = Vec::new();
    refresh_target(&mut st, &k, &mut msgs);
    assert_eq!(st.target, None);
    assert!(msgs.is_empty());
}

#[test]
fn collector_unloads_at_base() {
    let mut w = world_with(5, 5, &[]);
    let base = w.base;
    let id = add_robot(&mut w, RobotKind::Collector, base);
    let mut st = state(id, base);
    st.carrying = Some(ResourceKind::Crystal);
    let mut msgs = Vec::new();
    let mut rng = rand::thread_rng();
    collector_act(&mut st, &mut w, &PosSet::new(), &mut msgs, &mut rng);
    assert_eq!(st.carrying, None);
    assert_eq!(msgs, vec![Message::Collected { kind: ResourceKind::Crystal, amount: 1 }]);
    assert_eq!(w.robots[id].carrying, None);
}

#[test]
fn collector_collects_on_target_then_heads_home() {
    let mut w = world_with(5, 5, &[]);
    let t = Pos::new(4, 2);
    w.resources.insert(t, Resource { kind: ResourceKind::Energy, remaining: 2 });
    let id = add_robot(&mut w, RobotKind::Collector, t);
    let mut st = state(id, t);
    st.target = Some(t);
    let mut msgs = Vec::new();
    let mut rng = rand::thread_rng();
    collector_act(&mut st, &mut w, &PosSet::new(), &mut msgs, &mut rng);
    assert_eq!(st.carrying, Some(ResourceKind::Energy));
    assert_eq!(msgs, vec![Message::FoundResource { pos: t, kind: ResourceKind::Energy, qty: 1 }]);
    assert_eq!(w.robots[id].carrying, Some(ResourceKind::Energy));
    let mut msgs2 = Vec::new();
    collector_act(&mut st, &mut w, &PosSet::new(), &mut msgs2, &mut rng);
    assert_eq!(st.pos, Pos::new(3, 2));
    assert_eq!(msgs2, vec![Message::FoundResource { pos: t, kind: ResourceKind::Energy, qty: 1 }]);
}

#[test]
fn scout_move_follows_the_draws() {
    let mut w = world_with(9, 9, &[]);
    let id = add_robot(&mut w, RobotKind::Scout, Pos::new(1, 1));
    let known = PosSet::new();
    // Keep the heading when allowed and the cell ahead is walkable.
    let mut st = State { id, pos: Pos::new(1, 1), carrying: None, target: None, dir: (1, 0) };
    scout_move(&mut st, &w, &known, true, Some(2));
    assert_eq!((st.pos, st.dir), (Pos::new(2, 1), (1, 0)));
    // Otherwise take the drawn move.
    let mut st = State { id, pos: Pos::new(1, 1), carrying: None, target: None, dir: (1, 0) };
    scout_move(&mut st, &w, &known, false, Some(3));
    assert_eq!((st.pos, st.dir), (Pos::new(1, 0), (0, -1)));
    // Ahead is a known obstacle: the drawn move is taken even if keeping was allowed.
    let mut blocked = PosSet::new();
    blocked.insert(Pos::new(2, 1));
    let mut st = State { id, pos: Pos::new(1, 1), carrying: None, target: None, dir: (1, 0) };
    scout_move(&mut st, &w, &blocked, true, Some(2));
    assert_eq!((st.pos, st.dir), (Pos::new(1, 2), (0, 1)));
    // Nothing drawn: stay.
    let mut st = State { id, pos: Pos::new(1, 1), carrying: None, target: None, dir: (1, 0) };
    scout_move(&mut st, &w, &blocked, false, None);
    assert_eq!((st.pos, st.dir), (Pos::new(1, 1), (1, 0)));
}

#[test]
fn refresh_claims_the_first_of_equally_near() {
    let mut k = Knowledge::new();
    k.apply_message(&Message::FoundResource { pos: Pos::new(0, 1), kind: ResourceKind::Energy, qty: 9 });
    k.apply_message(&Message::FoundResource { pos: Pos::new(1, 0), kind: ResourceKind::Crystal, qty: 9 });
    let mut st = state(3, Pos::new(0, 0));
    let mut msgs = Vec::new();
    refresh_target(&mut st, &k, &mut msgs);
    assert_eq!(st.target, k.nearest_available(Pos::new(0, 0), 3));
    assert_eq!(msgs, vec![Message::Claim { id: 3, pos: Pos::new(0, 1) }]);
}

#[test]
fn initial_state_heads_along_a_unit_move() {
    let mut rng = rand::thread_rng();
    for _ in 0..20 {
        let st = State::initial(5, Pos::new(3, 4), &mut rng);
        assert_eq!(st.id, 5);
        assert_eq!(st.pos, Pos::new(3, 4));
        assert_eq!(st.carrying, None);
        assert_eq!(st.target, None);
        assert!([(1, 0), (-1, 0), (0, 1), (0, -1)].contains(&st.dir));
    }
}

#[test]
fn advance_goes_round_a_robot_on_the_path() {
    let mut w = world_with(5, 5, &[]);
    let me = add_robot(&mut w, RobotKind::Collector, Pos::new(0, 0));
    add_robot(&mut w, RobotKind::Scout, Pos::new(1, 0));
    let mut rng = rand::thread_rng();
    let mut pos = Pos::new(0, 0);
    let mut msgs = Vec::new();
    advance(&w, me, &mut pos, Pos::new(3, 0), &PosSet::new(), &mut msgs, &mut rng);
    // The search step (1, 0) is taken by the scout: the greedy step is (0, 1).
    assert_eq!(pos, Pos::new(0, 1));
    assert!(msgs.is_empty());
}
