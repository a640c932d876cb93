use resource_collection::map::{Resource, RobotView, Tile, World};
use resource_collection::message::Message;
use resource_collection::posmap::{PosMap, PosSet};
use resource_collection::render::Glyph;
use resource_collection::types::{Pos, ResourceKind, RobotKind};

fn open_world(width: i32, height: i32) -> World {
    let mask = vec![false; (width * height) as usize];
    World::with_terrain(width, height, &mask)
}

#[test]
fn manhattan_distance() {
    assert_eq!(Pos::new(0, 0).manhattan(Pos::new(3, -4)), 7);
    assert_eq!(Pos::new(-2, 5).manhattan(Pos::new(-2, 5)), 0);
    assert_eq!(Pos::new(i32::MIN, 0).manhattan(Pos::new(i32::MAX, 0)), u32::MAX as u64);
}

#[test]
fn neighbors_are_right_left_down_up() {
    let n = Pos::new(4, 7).neighbors4();
    assert_eq!(n, [Pos::new(5, 7), Pos::new(3, 7), Pos::new(4, 8), Pos::new(4, 6)]);
}

#[test]
fn pos_map_insert_find_remove() {
    let mut m: PosMap<u32> = PosMap::new();
    m.insert(Pos::new(1, 1), 10);
    m.insert(Pos::new(2, 2), 20);
    m.insert(Pos::new(1, 1), 11);
    assert_eq!(m.len(), 2);
    assert_eq!(m.find(Pos::new(1, 1)), Some(0));
    assert_eq!(*m.value_at(0), 11);
    m.remove(Pos::new(1, 1));
    assert_eq!(m.len(), 1);
    assert!(!m.contains_key(Pos::new(1, 1)));
    assert_eq!(m.key_at(0), Pos::new(2, 2));
}

#[test]
fn pos_set_insert_remove() {
    let mut s = PosSet::new();
    s.insert(Pos::new(0, 0));
    s.insert(Pos::new(0, 0));
    s.insert(Pos::new(1, 0));
    assert_eq!(s.len(), 2);
    s.remove(Pos::new(0, 0));
    assert!(!s.contains(Pos::new(0, 0)));
    assert!(s.contains(Pos::new(1, 0)));
}

#[test]
fn terrain_keeps_base_area_clear() {
    let mask = vec![true; 25];
    let w = World::with_terrain(5, 5, &mask);
    assert_eq!(w.base, Pos::new(2, 2));
    assert_eq!(w.tile(Pos::new(2, 2)), Tile::Base);
    for y in 0..5 {
        for x in 0..5 {
            let p = Pos::new(x, y);
            let expected = if p == w.base {
                Tile::Base
            } else if (x - 2).abs() <= 1 && (y - 2).abs() <= 1 {
                Tile::Empty
            } else {
                Tile::Obstacle
            };
            assert_eq!(w.tile(p), expected);
        }
    }
    assert_eq!(w.resources.len(), 0);
    assert_eq!(w.collected_energy, 0);
    assert_eq!(w.collected_crystals, 0);
}

#[test]
fn terrain_follows_the_mask_elsewhere() {
    let mut mask = vec![false; 7 * 5];
    mask[0] = true;
    mask[6] = true;
    let w = World::with_terrain(7, 5, &mask);
    assert_eq!(w.base, Pos::new(3, 2));
    assert_eq!(w.tile(Pos::new(0, 0)), Tile::Obstacle);
    assert_eq!(w.tile(Pos::new(6, 0)), Tile::Obstacle);
    assert_eq!(w.tile(Pos::new(1, 0)), Tile::Empty);
}

#[test]
fn bounds_and_obstacles() {
    let mut mask = vec![false; 25];
    mask[0] = true;
    let w = World::with_terrain(5, 5, &mask);
    assert!(w.in_bounds(Pos::new(4, 4)));
    assert!(!w.in_bounds(Pos::new(5, 0)));
    assert!(!w.in_bounds(Pos::new(0, -1)));
    assert!(w.is_obstacle(Pos::new(0, 0)));
    assert!(w.is_obstacle(Pos::new(-1, 3)));
    assert!(!w.is_obstacle(Pos::new(1, 0)));
}

#[test]
fn occupancy_ignores_the_asking_robot() {
    let mut w = open_world(5, 5);
    w.robots.push(RobotView { kind: RobotKind::Scout, pos: Pos::new(1, 1), carrying: None });
    w.robots.push(RobotView { kind: RobotKind::Collector, pos: Pos::new(3, 3), carrying: None });
    assert!(!w.is_occupied(Pos::new(1, 1), 0));
    assert!(w.is_occupied(Pos::new(1, 1), 1));
    assert!(!w.is_occupied(Pos::new(2, 2), 0));
}

#[test]
fn collected_totals_by_kind() {
    let mut w = open_world(3, 3);
    w.record_collected(ResourceKind::Energy, 1);
    w.record_collected(ResourceKind::Energy, 2);
    w.record_collected(ResourceKind::Crystal, 5);
    assert_eq!(w.collected_energy, 3);
    assert_eq!(w.collected_crystals, 5);
}

#[test]
fn scatter_places_on_free_ground() {
    let mut mask = vec![false; 100];
    for i in 0..50 {
        mask[i] = true;
    }
    let mut w = World::with_terrain(10, 10, &mask);
    let mut rng = rand::thread_rng();
    w.scatter_resources(ResourceKind::Energy, 5, &mut rng);
    w.scatter_resources(ResourceKind::Crystal, 5, &mut rng);
    assert!(w.resources.len() <= 10);
    assert!(w.resources.len() > 0);
    let mut energy = 0;
    let mut crystal = 0;
    for i in 0..w.resources.len() {
        let p = w.resources.key_at(i);
        let r = *w.resources.value_at(i);
        assert!(w.in_bounds(p));
        assert_eq!(w.tile(p), Tile::Empty);
        assert_ne!(p, w.base);
        assert!(r.remaining >= 50 && r.remaining <= 200);
        match r.kind {
            ResourceKind::Energy => energy += 1,
            ResourceKind::Crystal => crystal += 1,
        }
    }
    assert!(energy <= 5 && crystal <= 5);
}

#[test]
fn scatter_on_a_full_map_places_nothing() {
    let mut w = World::with_terrain(3, 3, &vec![false; 9]);
    let mut rng = rand::thread_rng();
    // Only the base cell is not free: 8 cells can hold deposits.
    w.scatter_resources(ResourceKind::Energy, 8, &mut rng);
    let placed = w.resources.len();
    assert!(placed <= 8);
    w.scatter_resources(ResourceKind::Crystal, 0, &mut rng);
    assert_eq!(w.resources.len(), placed);
}

#[test]
fn glyphs_draw_robots_over_resources_over_terrain() {
    let mut mask = vec![false; 25];
    mask[0] = true;
    let mut w = World::with_terrain(5, 5, &mask);
    w.resources.insert(Pos::new(4, 4), Resource { kind: ResourceKind::Crystal, remaining: 9 });
    w.resources.insert(Pos::new(4, 0), Resource { kind: ResourceKind::Energy, remaining: 9 });
    w.robots.push(RobotView { kind: RobotKind::Scout, pos: Pos::new(4, 4), carrying: None });
    w.robots.push(RobotView { kind: RobotKind::Collector, pos: Pos::new(1, 4), carrying: None });
    w.robots.push(RobotView { kind: RobotKind::Scout, pos: Pos::new(1, 4), carrying: None });
    assert_eq!(w.glyph_at(Pos::new(4, 4)), Glyph::Scout);
    assert_eq!(w.glyph_at(Pos::new(1, 4)), Glyph::Scout);
    assert_eq!(w.glyph_at(Pos::new(4, 0)), Glyph::Energy);
    assert_eq!(w.glyph_at(Pos::new(0, 0)), Glyph::Obstacle);
    assert_eq!(w.glyph_at(Pos::new(2, 2)), Glyph::Base);
    assert_eq!(w.glyph_at(Pos::new(3, 0)), Glyph::Empty);
    assert_eq!(w.scout_count(), 2);
}

#[test]
fn only_collected_concerns_the_world() {
    assert!(Message::Collected { kind: ResourceKind::Energy, amount: 1 }.concerns_world());
    assert!(!Message::Deplete { pos: Pos::new(0, 0) }.concerns_world());
    assert!(!Message::Claim { id: 1, pos: Pos::new(0, 0) }.concerns_world());
}

#[test]
fn placement_needs_free_ground() {
    let mut mask = vec![false; 25];
    mask[0] = true;
    let mut w = World::with_terrain(5, 5, &mask);
    assert!(!w.can_place(Pos::new(0, 0)));
    assert!(!w.can_place(w.base));
    assert!(!w.can_place(Pos::new(5, 1)));
    assert!(w.can_place(Pos::new(4, 4)));
    assert!(w.try_place(Pos::new(4, 4), 77, ResourceKind::Crystal));
    assert!(!w.can_place(Pos::new(4, 4)));
    assert!(!w.try_place(Pos::new(4, 4), 5, ResourceKind::Energy));
    assert!(!w.try_place(Pos::new(0, 0), 5, ResourceKind::Energy));
    assert_eq!(w.resources.len(), 1);
    assert_eq!(*w.resources.value_at(0), Resource { kind: ResourceKind::Crystal, remaining: 77 });
}

#[test]
fn scatter_stops_at_count_or_after_all_draws() {
    let mut w = World::with_terrain(20, 20, &vec![false; 400]);
    let mut rng = rand::thread_rng();
    let draws = w.scatter_resources(ResourceKind::Energy, 3, &mut rng);
    assert!(draws <= 600);
    assert!(w.resources.len() == 3 || draws == 600);
    assert!(w.resources.len() as u32 <= draws);
    assert_eq!(w.scatter_resources(ResourceKind::Crystal, 0, &mut rng), 0);
    // No free cell at all: every draw fails, and all of them are made.
    let mut full = World::with_terrain(3, 3, &vec![false; 9]);
    for y in 0..3 {
        for x in 0..3 {
            full.try_place(Pos::new(x, y), 50, ResourceKind::Energy);
        }
    }
    assert_eq!(full.resources.len(), 8);
    assert_eq!(full.scatter_resources(ResourceKind::Crystal, 2, &mut rng), 400);
    assert_eq!(full.resources.len(), 8);
}
