use celestial_pong::ball::{Ball, Ratio};
use celestial_pong::geometry::{IVec2, Rect};
use celestial_pong::quad_tree::{QuadTree, QuadTreeEntry};
use celestial_pong::simulation::{
    absorb_fixed, bounce_fixed, bounce_off, get_gravity_force, get_orbital_velocity, integrate, remove_marked,
    resolve_collisions, step, total_gravity, FixedContact, SimConfig,
};

fn v(x: i64, y: i64) -> IVec2 {
    IVec2::new(x, y)
}

fn field() -> Rect {
    Rect::new(0, 0, 1 << 32, 1 << 32)
}

fn ball(px: i64, py: i64, vx: i64, vy: i64, radius: i64, mass: i64) -> Ball {
    Ball::new(v(px, py), v(vx, vy), radius, mass, 0x808080ff, field())
}

fn index_of(bodies: &[Ball]) -> QuadTree {
    let entries: Vec<QuadTreeEntry> =
        bodies.iter().enumerate().map(|(i, b)| QuadTreeEntry::new(b.position, i)).collect();
    QuadTree::from_entries(Rect::new(0, 0, 4000, 4000), &entries)
}

#[test]
fn gravity_force_exact_value() {
    let b = ball(0, 0, 0, 0, 1, 1);
    let star = ball(10, 0, 0, 0, 5, 1000);
    assert_eq!(get_gravity_force(&b, &star, 100), v(1000, 0));
    assert_eq!(get_gravity_force(&star, &b, 100), v(-1000, 0));
}

#[test]
fn gravity_ties_round_away_from_zero() {
    let a = ball(0, 0, 0, 0, 1, 1);
    let b = ball(4, 0, 0, 0, 1, 1);
    assert_eq!(get_gravity_force(&a, &b, 15000), v(938, 0));
    assert_eq!(get_gravity_force(&b, &a, 15000), v(-938, 0));
}

#[test]
fn gravity_force_diagonal_and_coincident() {
    let b = ball(0, 0, 0, 0, 1, 2);
    let star = ball(30, 40, 0, 0, 5, 500);
    assert_eq!(get_gravity_force(&b, &star, 50), v(12, 16));
    let same = ball(30, 40, 0, 0, 1, 1);
    assert_eq!(get_gravity_force(&same, &star, 50), v(0, 0));
}

#[test]
fn total_gravity_sums_attractors() {
    let b = ball(0, 0, 0, 0, 1, 1);
    let stars = vec![ball(10, 0, 0, 0, 5, 1000), ball(-10, 0, 0, 0, 5, 1000), ball(0, 10, 0, 0, 5, 500)];
    assert_eq!(total_gravity(&b, &stars, 100), v(0, 500));
    assert_eq!(total_gravity(&b, &Vec::new(), 100), v(0, 0));
}

#[test]
fn orbital_velocity_exact_value() {
    let b = ball(100, 0, 0, 0, 1, 1);
    let star = ball(0, 0, 0, 0, 5, 1000);
    assert_eq!(get_orbital_velocity(&b, &star, 100), v(0, 31));
    let above = ball(0, -100, 0, 0, 1, 1);
    assert_eq!(get_orbital_velocity(&above, &star, 100), v(31, 0));
    let on_top = ball(0, 0, 0, 0, 1, 1);
    assert_eq!(get_orbital_velocity(&on_top, &star, 100), v(0, 0));
}

#[test]
fn circular_orbit_closes_after_one_period() {
    let d: i64 = 1 << 26;
    let g: i64 = 1 << 38;
    let star = vec![ball(0, 0, 0, 0, 1 << 20, 1 << 20)];
    let mut b = ball(d, 0, 0, 0, 1, 16);
    let vel = get_orbital_velocity(&b, &star[0], g);
    assert_eq!(vel, v(0, 1 << 18));
    b.set_velocity(vel, 1);
    let start = b;
    let period = (2.0 * std::f64::consts::PI * (d as f64) / ((1 << 18) as f64)).round() as usize;
    let mut bodies = vec![b];
    let mut dist_min = i64::MAX;
    let mut dist_max = 0i64;
    for _ in 0..period {
        integrate(&mut bodies, &star, g, 1, None);
        let p = bodies[0].position;
        let r = ((p.x as f64).powi(2) + (p.y as f64).powi(2)).sqrt() as i64;
        dist_min = dist_min.min(r);
        dist_max = dist_max.max(r);
    }
    let end = bodies[0];
    let tol = d / 100;
    assert!((end.position.x - start.position.x).abs() < tol, "{:?}", end.position);
    assert!((end.position.y - start.position.y).abs() < tol, "{:?}", end.position);
    assert!((end.velocity.x - start.velocity.x).abs() < (1 << 18) / 100, "{:?}", end.velocity);
    assert!((end.velocity.y - start.velocity.y).abs() < (1 << 18) / 100, "{:?}", end.velocity);
    assert!(dist_max - dist_min < tol);
}

#[test]
fn integrate_skips_gravity_for_excluded_body() {
    let star = vec![ball(0, 0, 0, 0, 5, 1000)];
    let mut bodies = vec![ball(10, 0, 0, 0, 1, 1), ball(-10, 0, 0, 0, 1, 1)];
    bodies[0].set_velocity(v(0, 0), 1);
    bodies[1].set_velocity(v(0, 0), 1);
    integrate(&mut bodies, &star, 100, 1, Some(1));
    assert_eq!(bodies[0].position, v(-990, 0));
    assert_eq!(bodies[0].velocity, v(-1000, 0));
    assert_eq!(bodies[1].position, v(-10, 0));
    assert_eq!(bodies[1].velocity, v(0, 0));
}

#[test]
fn resolve_collisions_pairs_each_body_once() {
    let mut bodies = vec![
        ball(0, 0, 1, 0, 2, 1),
        ball(3, 0, -1, 0, 2, 1),
        ball(1, 3, 0, -1, 2, 1),
        ball(500, 500, 0, 0, 2, 1),
    ];
    let before = bodies.clone();
    let tree = index_of(&bodies);
    let collided = resolve_collisions(&mut bodies, &tree, 1, Ratio::new(1, 1));
    assert_eq!(collided.len() % 2, 0);
    let mut seen = collided.clone();
    seen.sort();
    seen.dedup();
    assert_eq!(seen.len(), collided.len());
    assert!(!collided.contains(&3));
    assert_eq!(bodies[3].velocity, before[3].velocity);
    assert_eq!(collided.len(), 2);
    for i in 0..bodies.len() {
        assert_eq!(bodies[i].position, before[i].position);
    }
}

#[test]
fn resolve_collisions_head_on_pair() {
    let mut bodies = vec![ball(0, 0, 1, 0, 2, 1), ball(3, 0, -1, 0, 2, 1)];
    let tree = index_of(&bodies);
    let collided = resolve_collisions(&mut bodies, &tree, 1, Ratio::new(1, 1));
    assert_eq!(collided, vec![0, 1]);
    assert_eq!(bodies[0].velocity, v(-1, 0));
    assert_eq!(bodies[1].velocity, v(1, 0));
}

#[test]
fn resolve_collisions_with_one_body() {
    let mut bodies = vec![ball(0, 0, 1, 0, 2, 1)];
    let tree = index_of(&bodies);
    assert!(resolve_collisions(&mut bodies, &tree, 1, Ratio::new(1, 1)).is_empty());
    let mut none: Vec<Ball> = Vec::new();
    assert!(resolve_collisions(&mut none, &index_of(&[]), 1, Ratio::new(1, 1)).is_empty());
}

#[test]
fn bounce_off_reflects_and_lifts_to_surface() {
    let star = ball(0, 0, 0, 0, 10, 1000);
    let mut b = ball(8, 0, -5, 3, 2, 1);
    bounce_off(&mut b, &star, Ratio::new(1, 2), 1);
    assert_eq!(b.position, v(12, 0));
    assert_eq!(b.velocity, v(3, 2));
    assert_eq!(b.prev_position, v(9, -2));
}

#[test]
fn bounce_off_ignores_body_moving_away() {
    let star = ball(0, 0, 0, 0, 10, 1000);
    let mut b = ball(8, 0, 5, 3, 2, 1);
    let b0 = b;
    bounce_off(&mut b, &star, Ratio::new(1, 2), 1);
    assert_eq!((b.position, b.velocity, b.prev_position), (b0.position, b0.velocity, b0.prev_position));
}

#[test]
fn absorb_marks_touching_bodies_once() {
    let stars = vec![ball(0, 0, 0, 0, 10, 1000), ball(5, 0, 0, 0, 10, 1000)];
    let bodies = vec![ball(8, 0, 0, 0, 2, 1), ball(100, 100, 0, 0, 2, 1), ball(-11, 0, 0, 0, 2, 1)];
    let tree = index_of(&bodies);
    let mut marked = Vec::new();
    absorb_fixed(&bodies, &stars, &tree, &mut marked);
    marked.sort();
    assert_eq!(marked, vec![0, 2]);
}

#[test]
fn bounce_fixed_leaves_far_bodies() {
    let stars = vec![ball(0, 0, 0, 0, 10, 1000)];
    let mut bodies = vec![ball(8, 0, -5, 3, 2, 1), ball(100, 100, -1, -1, 2, 1)];
    let tree = index_of(&bodies);
    bounce_fixed(&mut bodies, &stars, &tree, 1, Ratio::new(1, 2));
    assert_eq!(bodies[0].velocity, v(3, 2));
    assert_eq!(bodies[1].velocity, v(-1, -1));
    assert_eq!(bodies[1].position, v(100, 100));
}

#[test]
fn bounce_fixed_bounces_a_repeated_entry_once() {
    let stars = vec![ball(0, 0, 0, 0, 10, 1000)];
    let mut bodies = vec![ball(100, 100, 0, 0, 2, 1), ball(8, 0, -5, 3, 2, 1)];
    let tree = index_of(&bodies);
    let mut near = Vec::new();
    tree.query_entries(&stars[0].get_collision_area(), &mut near);
    assert!(near.iter().filter(|e| e.payload == 1).count() > 1);
    let mut once = bodies[1];
    bounce_off(&mut once, &stars[0], Ratio::new(1, 2), 1);
    bounce_fixed(&mut bodies, &stars, &tree, 1, Ratio::new(1, 2));
    assert_eq!(bodies[1].position, once.position);
    assert_eq!(bodies[1].velocity, once.velocity);
    assert_eq!(bodies[1].prev_position, once.prev_position);
    assert_eq!(bodies[1].velocity, v(3, 2));
}

#[test]
fn remove_marked_keeps_order() {
    let mut bodies: Vec<Ball> = (0..5).map(|i| ball(i * 10, 0, 0, 0, 1, 1)).collect();
    remove_marked(&mut bodies, &vec![3, 0, 3]);
    let xs: Vec<i64> = bodies.iter().map(|b| b.position.x).collect();
    assert_eq!(xs, vec![10, 20, 40]);
    remove_marked(&mut bodies, &Vec::new());
    assert_eq!(bodies.len(), 3);
}

fn config(contact: FixedContact) -> SimConfig {
    SimConfig {
        tree_area: Rect::new(0, 0, 4000, 4000),
        dt: 1,
        gravity: 0,
        heat: Ratio::new(1, 1),
        restitution: Ratio::new(1, 2),
        contact,
    }
}

#[test]
fn step_collides_a_head_on_pair() {
    let mut bodies = vec![ball(0, 0, 1, 0, 2, 1), ball(3, 0, -1, 0, 2, 1)];
    let mut marked = Vec::new();
    step(&mut bodies, &Vec::new(), &config(FixedContact::Absorb), None, &mut marked);
    assert_eq!(bodies[0].position, v(1, 0));
    assert_eq!(bodies[1].position, v(2, 0));
    assert_eq!(bodies[0].velocity, v(-1, 0));
    assert_eq!(bodies[1].velocity, v(1, 0));
    assert!(marked.is_empty());
}

#[test]
fn step_absorbs_body_that_falls_in() {
    let stars = vec![ball(0, 0, 0, 0, 10, 1000)];
    let mut bodies = vec![ball(13, 0, -2, 0, 2, 1), ball(300, 0, 0, 0, 2, 1)];
    let mut marked = Vec::new();
    step(&mut bodies, &stars, &config(FixedContact::Absorb), None, &mut marked);
    assert_eq!(marked, vec![0]);
    remove_marked(&mut bodies, &marked);
    assert_eq!(bodies.len(), 1);
    assert_eq!(bodies[0].position, v(300, 0));
}

#[test]
fn step_bounces_body_off_fixed_body() {
    let stars = vec![ball(0, 0, 0, 0, 10, 1000)];
    let mut bodies = vec![ball(13, 0, -2, 0, 2, 1)];
    let mut marked = vec![7];
    step(&mut bodies, &stars, &config(FixedContact::Bounce), None, &mut marked);
    assert_eq!(marked, vec![7]);
    assert_eq!(bodies[0].position, v(12, 0));
    assert_eq!(bodies[0].velocity, v(1, 0));
}

#[test]
fn step_indexes_positions_from_the_start_of_the_sub_step() {
    let mut bodies = vec![ball(0, 0, 6, 0, 2, 1), ball(14, 0, -6, 0, 2, 1)];
    let mut marked = Vec::new();
    step(&mut bodies, &Vec::new(), &config(FixedContact::Absorb), None, &mut marked);
    assert_eq!(bodies[0].position, v(6, 0));
    assert_eq!(bodies[1].position, v(8, 0));
    assert!(bodies[0].check_collision(&bodies[1]));
    assert_eq!(bodies[0].velocity, v(6, 0));
    assert_eq!(bodies[1].velocity, v(-6, 0));
    step(&mut bodies, &Vec::new(), &config(FixedContact::Absorb), None, &mut marked);
    assert_eq!(bodies[0].position, v(12, 0));
    assert_eq!(bodies[1].position, v(2, 0));
}
