use celestial_pong::ball::{Ball, Ratio, HEAT_DISSIPATION_DEN, HEAT_DISSIPATION_NUM, SPEED_LIMIT};
use celestial_pong::geometry::{IVec2, Rect};

fn v(x: i64, y: i64) -> IVec2 {
    IVec2::new(x, y)
}

fn field() -> Rect {
    Rect::new(0, 0, 1000, 1000)
}

fn ball(px: i64, py: i64, vx: i64, vy: i64, radius: i64, mass: i64) -> Ball {
    Ball::new(v(px, py), v(vx, vy), radius, mass, 0xffffffff, field())
}

#[test]
fn new_sets_previous_position_one_unit_back() {
    let b = ball(10, 20, 3, -4, 2, 5);
    assert_eq!(b.position, v(10, 20));
    assert_eq!(b.prev_position, v(7, 24));
    assert_eq!(b.velocity, v(3, -4));
    assert_eq!((b.radius, b.mass, b.color), (2, 5, 0xffffffff));
    assert_eq!(b.playing_field, field());
}

#[test]
fn collision_area_is_four_radii_wide() {
    let b = ball(10, 20, 0, 0, 3, 1);
    let r = b.get_collision_area();
    assert_eq!((r.x, r.y, r.half_width, r.half_height), (10, 20, 6, 6));
    assert_eq!((r.left, r.right, r.up, r.down), (4, 16, 14, 26));
}

#[test]
fn check_collision_counts_touching() {
    let a = ball(0, 0, 0, 0, 2, 1);
    let touching = ball(3, 4, 0, 0, 3, 1);
    let apart = ball(3, 4, 0, 0, 2, 1);
    assert!(a.check_collision(&touching));
    assert!(touching.check_collision(&a));
    assert!(!a.check_collision(&apart));
    assert!(a.check_collision(&a));
}

#[test]
fn euler_update_moves_and_accelerates() {
    let mut b = ball(0, 0, 3, 1, 1, 1);
    b.update(2, v(1, -1));
    assert_eq!(b.velocity, v(5, -1));
    assert_eq!(b.prev_position, v(0, 0));
    assert_eq!(b.position, v(10, -2));
}

#[test]
fn euler_update_bounces_only_while_escaping() {
    let mut out_right = ball(600, 0, 4, 0, 1, 1);
    out_right.update(1, v(0, 0));
    assert_eq!(out_right.velocity, v(-4, 0));
    assert_eq!(out_right.position, v(596, 0));

    let mut coming_back = ball(600, 0, -4, 0, 1, 1);
    coming_back.update(1, v(0, 0));
    assert_eq!(coming_back.velocity, v(-4, 0));

    let mut out_top = ball(0, -600, 0, -2, 1, 1);
    out_top.update(1, v(0, 0));
    assert_eq!(out_top.velocity, v(0, 2));
}

#[test]
fn euler_update_limits_speed() {
    let mut b = ball(0, 0, SPEED_LIMIT, 0, 1, 1);
    b.update(1, v(1000, 0));
    assert_eq!(b.velocity.x, SPEED_LIMIT);
}

#[test]
fn verlet_step_formula() {
    let mut b = ball(100, 100, 0, 0, 1, 1);
    b.prev_position = v(90, 105);
    b.update_verlet(2, v(3, -1));
    assert_eq!(b.position, v(122, 91));
    assert_eq!(b.prev_position, v(100, 100));
    assert_eq!(b.velocity, v(11, -4));
}

#[test]
fn verlet_velocity_rounds_to_nearest() {
    let mut b = ball(0, 0, 0, 0, 1, 1);
    b.prev_position = v(-7, 5);
    b.update_verlet(2, v(0, 0));
    assert_eq!(b.position, v(7, -5));
    assert_eq!(b.velocity, v(4, -2));
}

#[test]
fn set_velocity_then_verlet_round_trip() {
    let mut b = ball(50, -20, 9, 9, 1, 1);
    b.set_velocity(v(-6, 11), 3);
    assert_eq!(b.velocity, v(-6, 11));
    assert_eq!(b.prev_position, v(68, -53));
    b.update_verlet(3, v(0, 0));
    assert_eq!(b.velocity, v(-6, 11));
    assert_eq!(b.position, v(32, 13));
}

#[test]
fn head_on_equal_masses_swap_velocities() {
    let mut a = ball(0, 0, 1, 0, 2, 1);
    let mut b = ball(3, 0, -1, 0, 2, 1);
    a.collide_with(&mut b, 1, Ratio::new(1, 1));
    assert_eq!(a.velocity, v(-1, 0));
    assert_eq!(b.velocity, v(1, 0));
    assert_eq!(a.position, v(0, 0));
    assert_eq!(b.position, v(3, 0));
    assert_eq!(a.prev_position, v(1, 0));
    assert_eq!(b.prev_position, v(2, 0));
}

#[test]
fn default_collide_on_a_head_on_pair() {
    let mut a = ball(0, 0, 1, 0, 2, 1);
    let mut b = ball(3, 0, -1, 0, 2, 1);
    a.collide(&mut b, 1);
    assert_eq!(a.velocity, v(-1, 0));
    assert_eq!(b.velocity, v(1, 0));
}

#[test]
fn oblique_equal_masses_swap_normal_keep_tangent() {
    let mut a = ball(0, 0, 2, 1, 2, 4);
    let mut b = ball(3, 0, -1, 0, 2, 4);
    a.collide_with(&mut b, 1, Ratio::new(1, 1));
    assert_eq!(a.velocity, v(-1, 1));
    assert_eq!(b.velocity, v(2, 0));
}

#[test]
fn tangential_velocity_is_dissipated() {
    let mut a = ball(0, 0, 2, 100, 2, 4);
    let mut b = ball(3, 0, -2, 0, 2, 4);
    a.collide_with(&mut b, 1, Ratio::new(1, 2));
    assert_eq!(a.velocity, v(-2, 50));
    assert_eq!(b.velocity, v(2, 0));
    let mut c = ball(0, 0, 2, 1000, 2, 4);
    let mut d = ball(3, 0, -2, 0, 2, 4);
    c.collide_with(&mut d, 1, Ratio::new(HEAT_DISSIPATION_NUM, HEAT_DISSIPATION_DEN));
    assert_eq!(c.velocity, v(-2, 999));
}

#[test]
fn unequal_masses_conserve_momentum() {
    let mut a = ball(0, 0, 4, 0, 1, 1);
    let mut b = ball(2, 0, 0, 0, 1, 3);
    a.collide_with(&mut b, 1, Ratio::new(1, 1));
    assert_eq!(a.velocity, v(-2, 0));
    assert_eq!(b.velocity, v(2, 0));
    assert_eq!(a.mass * a.velocity.x + b.mass * b.velocity.x, 4);
}

#[test]
fn diagonal_collision_conserves_momentum_closely() {
    let mut a = ball(0, 0, 300, 120, 5, 3);
    let mut b = ball(6, 8, -50, -200, 5, 7);
    let before = (a.mass * a.velocity.x + b.mass * b.velocity.x, a.mass * a.velocity.y + b.mass * b.velocity.y);
    a.collide_with(&mut b, 1, Ratio::new(1, 1));
    let after = (a.mass * a.velocity.x + b.mass * b.velocity.x, a.mass * a.velocity.y + b.mass * b.velocity.y);
    assert!((before.0 - after.0).abs() <= 10);
    assert!((before.1 - after.1).abs() <= 10);
    assert_ne!(a.velocity, v(300, 120));
}

#[test]
fn separating_pair_is_left_alone() {
    let mut a = ball(0, 0, -1, 0, 2, 1);
    let mut b = ball(3, 0, 1, 0, 2, 1);
    let (a0, b0) = (a, b);
    a.collide_with(&mut b, 1, Ratio::new(1, 1));
    assert_eq!((a.velocity, a.prev_position), (a0.velocity, a0.prev_position));
    assert_eq!((b.velocity, b.prev_position), (b0.velocity, b0.prev_position));
}

#[test]
fn second_collide_changes_nothing() {
    let mut a = ball(0, 0, 1, 0, 2, 1);
    let mut b = ball(3, 0, -1, 0, 2, 1);
    a.collide_with(&mut b, 1, Ratio::new(1, 1));
    let (a1, b1) = (a.velocity, b.velocity);
    a.collide_with(&mut b, 1, Ratio::new(1, 1));
    assert_eq!(a.velocity, a1);
    assert_eq!(b.velocity, b1);
}

#[test]
fn slow_approach_can_outlast_rounding() {
    let mut a = ball(0, 0, -2, -2, 2, 1);
    let mut b = ball(-3, -2, -2, -1, 2, 1);
    a.collide(&mut b, 1);
    assert_eq!(a.velocity, v(-2, -2));
    assert_eq!(b.velocity, v(-2, -1));
}

#[test]
fn coincident_centers_are_skipped() {
    let mut a = ball(5, 5, 1, 0, 2, 1);
    let mut b = ball(5, 5, -1, 0, 2, 1);
    a.collide_with(&mut b, 1, Ratio::new(1, 1));
    assert_eq!(a.velocity, v(1, 0));
    assert_eq!(b.velocity, v(-1, 0));
}
