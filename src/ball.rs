//! Circular bodies: integration, the overlap test and elastic collision
//! response.

use vstd::prelude::*;
use crate::fixed::{clamp, clamp_spec, lemma_mul_bound, lemma_round_div_close, round_div, round_div_spec};
use crate::geometry::{COORD_LIMIT, IVec2, Rect, rect_spec};

verus! {

/// The largest magnitude of a velocity component.
pub const SPEED_LIMIT: i64 = 0x10_0000;

/// The largest magnitude of an acceleration component.
pub const ACC_LIMIT: i64 = 0x10_0000;

/// The longest time step.
pub const DT_LIMIT: i64 = 0x400;

pub const MASS_LIMIT: i64 = 0x10_0000;

pub const RADIUS_LIMIT: i64 = 0x2000_0000;

/// The largest denominator of a `Ratio`.
pub const RATIO_LIMIT: i64 = 0x400;

/// The share of tangential velocity that a collision keeps, by default.
pub const HEAT_DISSIPATION_NUM: i64 = 999;

pub const HEAT_DISSIPATION_DEN: i64 = 1000;

/// A factor between zero and one, as `num / den`.
#[derive(Clone, Copy, Debug, PartialEq, Eq, Structural)]
pub struct Ratio {
    pub num: i64,
    pub den: i64,
}

impl Ratio {
    pub open spec fn wf(self) -> bool {
        1 <= self.den <= RATIO_LIMIT && 0 <= self.num <= self.den
    }

    pub fn new(num: i64, den: i64) -> (r: Ratio)
        requires
            1 <= den <= RATIO_LIMIT,
            0 <= num <= den,
        ensures
            r.wf(),
            r.num == num,
            r.den == den,
    {
        Ratio { num, den }
    }
}

/// Both components of `v` lie in `[-lim, lim]`.
pub open spec fn within(v: IVec2, lim: int) -> bool {
    -lim <= v.x <= lim && -lim <= v.y <= lim
}

/// The new velocity component of a body at `p` moving at `v` after the bounce
/// off the walls `lo` and `hi`: reversed while the body is beyond a wall and
/// still moving away from the field.
pub open spec fn bounce_spec(p: int, v: int, lo: int, hi: int) -> int {
    if (p < lo && v < 0) || (p > hi && v > 0) {
        -v
    } else {
        v
    }
}

/// The scaled velocity of body `a` after it meets body `b`, with the line of
/// centers `(nx, ny)` pointing from `b` to `a`: the normal part follows the
/// one-dimensional elastic collision of the masses, the tangential part keeps
/// `hn / hd` of itself. Divided by `response_denominator` it gives the velocity.
pub open spec fn response_numerator(
    nx: int,
    ny: int,
    va: IVec2,
    vb: IVec2,
    ma: int,
    mb: int,
    hn: int,
    hd: int,
) -> (int, int) {
    let an = va.x * nx + va.y * ny;
    let bn = vb.x * nx + vb.y * ny;
    let at = va.y * nx - va.x * ny;
    let na = an * (ma - mb) + 2 * mb * bn;
    let tw = hn * (ma + mb) * at;
    (na * hd * nx - tw * ny, na * hd * ny + tw * nx)
}

pub open spec fn response_denominator(nx: int, ny: int, ma: int, mb: int, hd: int) -> int {
    (ma + mb) * hd * (nx * nx + ny * ny)
}

proof fn lemma_step_bounds(acc: IVec2, dt: int)
    requires
        within(acc, ACC_LIMIT as int),
        1 <= dt <= DT_LIMIT,
    ensures
        -(ACC_LIMIT * DT_LIMIT) <= acc.x * dt <= ACC_LIMIT * DT_LIMIT,
        -(ACC_LIMIT * DT_LIMIT) <= acc.y * dt <= ACC_LIMIT * DT_LIMIT,
        -(ACC_LIMIT * DT_LIMIT * DT_LIMIT) <= acc.x * dt * dt <= ACC_LIMIT * DT_LIMIT * DT_LIMIT,
        -(ACC_LIMIT * DT_LIMIT * DT_LIMIT) <= acc.y * dt * dt <= ACC_LIMIT * DT_LIMIT * DT_LIMIT,
{
    assert(-(ACC_LIMIT * DT_LIMIT) <= acc.x * dt <= ACC_LIMIT * DT_LIMIT) by (nonlinear_arith)
        requires -ACC_LIMIT <= acc.x <= ACC_LIMIT, 1 <= dt <= DT_LIMIT;
    assert(-(ACC_LIMIT * DT_LIMIT) <= acc.y * dt <= ACC_LIMIT * DT_LIMIT) by (nonlinear_arith)
        requires -ACC_LIMIT <= acc.y <= ACC_LIMIT, 1 <= dt <= DT_LIMIT;
    let ax = acc.x * dt;
    let ay = acc.y * dt;
    assert(-(ACC_LIMIT * DT_LIMIT * DT_LIMIT) <= ax * dt <= ACC_LIMIT * DT_LIMIT * DT_LIMIT) by (nonlinear_arith)
        requires -(ACC_LIMIT * DT_LIMIT) <= ax <= ACC_LIMIT * DT_LIMIT, 1 <= dt <= DT_LIMIT;
    assert(-(ACC_LIMIT * DT_LIMIT * DT_LIMIT) <= ay * dt <= ACC_LIMIT * DT_LIMIT * DT_LIMIT) by (nonlinear_arith)
        requires -(ACC_LIMIT * DT_LIMIT) <= ay <= ACC_LIMIT * DT_LIMIT, 1 <= dt <= DT_LIMIT;
}

proof fn lemma_velocity_step(v: IVec2, dt: int)
    requires
        within(v, SPEED_LIMIT as int),
        1 <= dt <= DT_LIMIT,
    ensures
        -(SPEED_LIMIT * DT_LIMIT) <= v.x * dt <= SPEED_LIMIT * DT_LIMIT,
        -(SPEED_LIMIT * DT_LIMIT) <= v.y * dt <= SPEED_LIMIT * DT_LIMIT,
{
    assert(-(SPEED_LIMIT * DT_LIMIT) <= v.x * dt <= SPEED_LIMIT * DT_LIMIT) by (nonlinear_arith)
        requires -SPEED_LIMIT <= v.x <= SPEED_LIMIT, 1 <= dt <= DT_LIMIT;
    assert(-(SPEED_LIMIT * DT_LIMIT) <= v.y * dt <= SPEED_LIMIT * DT_LIMIT) by (nonlinear_arith)
        requires -SPEED_LIMIT <= v.y <= SPEED_LIMIT, 1 <= dt <= DT_LIMIT;
}

/// `response_numerator` on values in the engine's ranges, with the line of
/// centers within twice the coordinate range.
fn response(nx: i128, ny: i128, va: IVec2, vb: IVec2, ma: i64, mb: i64, heat: Ratio) -> (r: (i128, i128))
    requires
        -0x1_0000_0000 <= nx <= 0x1_0000_0000,
        -0x1_0000_0000 <= ny <= 0x1_0000_0000,
        within(va, SPEED_LIMIT as int),
        within(vb, SPEED_LIMIT as int),
        1 <= ma <= MASS_LIMIT,
        1 <= mb <= MASS_LIMIT,
        heat.wf(),
    ensures
        r.0 == response_numerator(nx as int, ny as int, va, vb, ma as int, mb as int, heat.num as int, heat.den as int).0,
        r.1 == response_numerator(nx as int, ny as int, va, vb, ma as int, mb as int, heat.num as int, heat.den as int).1,
        -0x40_0000_0000_0000_0000_0000_0000_0000 <= r.0 <= 0x40_0000_0000_0000_0000_0000_0000_0000,
        -0x40_0000_0000_0000_0000_0000_0000_0000 <= r.1 <= 0x40_0000_0000_0000_0000_0000_0000_0000,
{
    let ghost big_n: int = 0x1_0000_0000int;
    let ax = va.x as i128;
    let ay = va.y as i128;
    let bx = vb.x as i128;
    let by = vb.y as i128;
    proof {
        lemma_mul_bound(ax as int, nx as int, 0x10_0000, big_n);
        lemma_mul_bound(ay as int, ny as int, 0x10_0000, big_n);
        lemma_mul_bound(bx as int, nx as int, 0x10_0000, big_n);
        lemma_mul_bound(by as int, ny as int, 0x10_0000, big_n);
        lemma_mul_bound(ay as int, nx as int, 0x10_0000, big_n);
        lemma_mul_bound(ax as int, ny as int, 0x10_0000, big_n);
    }
    let an: i128 = ax * nx + ay * ny;
    let bn: i128 = bx * nx + by * ny;
    let at: i128 = ay * nx - ax * ny;
    let dm: i128 = (ma - mb) as i128;
    let tm: i128 = (2 * mb) as i128;
    let sm: i128 = (ma + mb) as i128;
    let ghost bound_an: int = 0x20_0000_0000_0000int;
    proof {
        lemma_mul_bound(an as int, dm as int, bound_an, 0x10_0000);
        lemma_mul_bound(tm as int, bn as int, 0x20_0000, bound_an);
    }
    let na: i128 = an * dm + tm * bn;
    let ghost bound_na: int = bound_an * 0x40_0000;
    proof {
        lemma_mul_bound(na as int, heat.den as int, bound_na, 0x400);
        lemma_mul_bound(heat.num as int, sm as int, 0x400, 0x20_0000);
    }
    let nh: i128 = na * heat.den as i128;
    let hs: i128 = heat.num as i128 * sm;
    proof {
        lemma_mul_bound(hs as int, at as int, 0x8000_0000, bound_an);
    }
    let tw: i128 = hs * at;
    proof {
        lemma_mul_bound(nh as int, nx as int, bound_na * 0x400, big_n);
        lemma_mul_bound(nh as int, ny as int, bound_na * 0x400, big_n);
        lemma_mul_bound(tw as int, nx as int, 0x8000_0000 * bound_an, big_n);
        lemma_mul_bound(tw as int, ny as int, 0x8000_0000 * bound_an, big_n);
        assert(na * heat.den * nx == nh * nx);
        assert(heat.num * (ma + mb) * at == tw);
    }
    (nh * nx - tw * ny, nh * ny + tw * nx)
}

/// A circular body with a mass, moving inside a playing field whose walls it
/// bounces off under semi-implicit Euler integration.
#[derive(Clone, Copy, Debug)]
pub struct Ball {
    pub position: IVec2,
    pub prev_position: IVec2,
    pub velocity: IVec2,
    pub radius: i64,
    pub mass: i64,
    /// Packed `0xRRGGBBAA`; no physics reads it.
    pub color: u32,
    pub playing_field: Rect,
}

impl Ball {
    pub open spec fn wf(self) -> bool {
        &&& self.position.in_coord_range()
        &&& within(self.prev_position, 2 * COORD_LIMIT)
        &&& within(self.velocity, SPEED_LIMIT as int)
        &&& 1 <= self.radius <= RADIUS_LIMIT
        &&& 1 <= self.mass <= MASS_LIMIT
        &&& self.playing_field.wf()
    }

    /// The square centered on the body with sides of four radii.
    pub open spec fn collision_area(self) -> Rect {
        rect_spec(self.position.x as int, self.position.y as int, 2 * self.radius, 2 * self.radius)
    }

    /// Whether the two circles overlap or touch.
    pub open spec fn overlaps(self, other: Ball) -> bool {
        (other.position.x - self.position.x) * (other.position.x - self.position.x)
            + (other.position.y - self.position.y) * (other.position.y - self.position.y)
            <= (other.radius + self.radius) * (other.radius + self.radius)
    }

    /// Whether `self` and `other` move toward each other along their line of
    /// centers.
    pub open spec fn approaching(self, other: Ball) -> bool {
        (self.velocity.x - other.velocity.x) * (self.position.x - other.position.x)
            + (self.velocity.y - other.velocity.y) * (self.position.y - other.position.y) < 0
    }

    /// The velocity of `self` after an elastic collision with `other` that
    /// keeps `heat` of the tangential velocity, rounded to the grid and
    /// limited to the speed range.
    pub open spec fn collision_velocity(self, other: Ball, heat: Ratio) -> IVec2 {
        let n = self.collision_numerator(other, heat);
        let d = self.collision_denominator(other, heat);
        IVec2 {
            x: clamp_spec(round_div_spec(n.0, d), SPEED_LIMIT as int) as i64,
            y: clamp_spec(round_div_spec(n.1, d), SPEED_LIMIT as int) as i64,
        }
    }

    /// The body after one Verlet step of `dt` under `acc`.
    pub open spec fn verlet_spec(self, dt: int, acc: IVec2) -> Ball {
        let px = clamp_spec(2 * self.position.x - self.prev_position.x + acc.x * dt * dt, COORD_LIMIT as int);
        let py = clamp_spec(2 * self.position.y - self.prev_position.y + acc.y * dt * dt, COORD_LIMIT as int);
        Ball {
            position: IVec2 { x: px as i64, y: py as i64 },
            prev_position: self.position,
            velocity: IVec2 {
                x: clamp_spec(round_div_spec(px - self.position.x, dt), SPEED_LIMIT as int) as i64,
                y: clamp_spec(round_div_spec(py - self.position.y, dt), SPEED_LIMIT as int) as i64,
            },
            ..self
        }
    }

    /// The scaled velocity of `self` after meeting `other`; see
    /// `response_numerator`.
    pub open spec fn collision_numerator(self, other: Ball, heat: Ratio) -> (int, int) {
        response_numerator(
            self.position.x - other.position.x,
            self.position.y - other.position.y,
            self.velocity,
            other.velocity,
            self.mass as int,
            other.mass as int,
            heat.num as int,
            heat.den as int,
        )
    }

    pub open spec fn collision_denominator(self, other: Ball, heat: Ratio) -> int {
        response_denominator(
            self.position.x - other.position.x,
            self.position.y - other.position.y,
            self.mass as int,
            other.mass as int,
            heat.den as int,
        )
    }

    /// `self` moving at `v`, with the previous position set one step of `dt`
    /// behind.
    pub open spec fn with_velocity(self, v: IVec2, dt: int) -> Ball {
        Ball {
            prev_position: IVec2 {
                x: (self.position.x - v.x * dt) as i64,
                y: (self.position.y - v.y * dt) as i64,
            },
            velocity: v,
            ..self
        }
    }

    /// A body at `position` moving at `velocity`; the previous position lies
    /// one time unit behind.
    pub fn new(
        position: IVec2,
        velocity: IVec2,
        radius: i64,
        mass: i64,
        color: u32,
        playing_field: Rect,
    ) -> (r: Ball)
        requires
            position.in_coord_range(),
            within(velocity, SPEED_LIMIT as int),
            1 <= radius <= RADIUS_LIMIT,
            1 <= mass <= MASS_LIMIT,
            playing_field.wf(),
        ensures
            r.wf(),
            r.position == position,
            r.velocity == velocity,
            r.prev_position == (IVec2 { x: (position.x - velocity.x) as i64, y: (position.y - velocity.y) as i64 }),
            r.radius == radius,
            r.mass == mass,
            r.color == color,
            r.playing_field == playing_field,
    {
        Ball {
            position,
            prev_position: IVec2 { x: position.x - velocity.x, y: position.y - velocity.y },
            velocity,
            radius,
            mass,
            color,
            playing_field,
        }
    }

    /// The square centered on the body with sides of four radii: the window in
    /// which neighbours are looked for.
    pub fn get_collision_area(&self) -> (r: Rect)
        requires
            self.wf(),
        ensures
            r.wf(),
            r == self.collision_area(),
    {
        let s: i64 = self.radius * 4;
        Rect::new(self.position.x, self.position.y, s, s)
    }

    /// One semi-implicit Euler step: the velocity takes `acc * dt` and bounces
    /// off the walls, then the position moves by `velocity * dt`.
    pub fn update(&mut self, dt: i64, acc: IVec2)
        requires
            old(self).wf(),
            1 <= dt <= DT_LIMIT,
            within(acc, ACC_LIMIT as int),
        ensures
            final(self).wf(),
            final(self).velocity.x == bounce_spec(
                old(self).position.x as int,
                clamp_spec(old(self).velocity.x + acc.x * dt, SPEED_LIMIT as int),
                old(self).playing_field.left as int,
                old(self).playing_field.right as int,
            ),
            final(self).velocity.y == bounce_spec(
                old(self).position.y as int,
                clamp_spec(old(self).velocity.y + acc.y * dt, SPEED_LIMIT as int),
                old(self).playing_field.up as int,
                old(self).playing_field.down as int,
            ),
            final(self).prev_position == old(self).position,
            final(self).position.x == clamp_spec(old(self).position.x + final(self).velocity.x * dt, COORD_LIMIT as int),
            final(self).position.y == clamp_spec(old(self).position.y + final(self).velocity.y * dt, COORD_LIMIT as int),
            final(self).radius == old(self).radius,
            final(self).mass == old(self).mass,
            final(self).color == old(self).color,
            final(self).playing_field == old(self).playing_field,
    {
        proof {
            lemma_step_bounds(acc, dt as int);
        }
        let mut vx = clamp((self.velocity.x + acc.x * dt) as i128, SPEED_LIMIT);
        let mut vy = clamp((self.velocity.y + acc.y * dt) as i128, SPEED_LIMIT);
        let pos = self.position;
        if pos.x < self.playing_field.left && vx < 0 || pos.x > self.playing_field.right && vx > 0 {
            vx = -vx;
        }
        if pos.y < self.playing_field.up && vy < 0 || pos.y > self.playing_field.down && vy > 0 {
            vy = -vy;
        }
        self.velocity = IVec2 { x: vx, y: vy };
        proof {
            lemma_velocity_step(self.velocity, dt as int);
        }
        self.prev_position = pos;
        self.position = IVec2 {
            x: clamp((pos.x + vx * dt) as i128, COORD_LIMIT),
            y: clamp((pos.y + vy * dt) as i128, COORD_LIMIT),
        };
    }

    /// One Verlet step: the new position is `2 * position - prev_position +
    /// acc * dt * dt`, and the velocity is read off the displacement.
    pub fn update_verlet(&mut self, dt: i64, acc: IVec2)
        requires
            old(self).wf(),
            1 <= dt <= DT_LIMIT,
            within(acc, ACC_LIMIT as int),
        ensures
            final(self).wf(),
            *final(self) == old(self).verlet_spec(dt as int, acc),
    {
        let p = self.position;
        proof {
            lemma_step_bounds(acc, dt as int);
        }
        let nx = clamp((2 * p.x - self.prev_position.x + acc.x * dt * dt) as i128, COORD_LIMIT);
        let ny = clamp((2 * p.y - self.prev_position.y + acc.y * dt * dt) as i128, COORD_LIMIT);
        self.position = IVec2 { x: nx, y: ny };
        self.prev_position = p;
        self.velocity = IVec2 {
            x: clamp(round_div((nx - p.x) as i128, dt as i128), SPEED_LIMIT),
            y: clamp(round_div((ny - p.y) as i128, dt as i128), SPEED_LIMIT),
        };
    }

    /// Imposes `velocity` so that a following Verlet step moves the body by
    /// `velocity * dt`: the previous position is set one step behind.
    pub fn set_velocity(&mut self, velocity: IVec2, dt: i64)
        requires
            old(self).wf(),
            within(velocity, SPEED_LIMIT as int),
            1 <= dt <= DT_LIMIT,
        ensures
            final(self).wf(),
            *final(self) == old(self).with_velocity(velocity, dt as int),
    {
        proof {
            lemma_velocity_step(velocity, dt as int);
        }
        self.prev_position = IVec2 {
            x: self.position.x - velocity.x * dt,
            y: self.position.y - velocity.y * dt,
        };
        self.velocity = velocity;
    }

    /// Whether the two circles overlap or touch.
    pub fn check_collision(&self, other: &Ball) -> (r: bool)
        requires
            self.wf(),
            other.wf(),
        ensures
            r == self.overlaps(*other),
    {
        let dx = (other.position.x - self.position.x) as i128;
        let dy = (other.position.y - self.position.y) as i128;
        let rs = (other.radius + self.radius) as i128;
        assert(dx * dx <= 0x1_0000_0000 * 0x1_0000_0000) by (nonlinear_arith)
            requires -0x1_0000_0000 <= dx <= 0x1_0000_0000;
        assert(dy * dy <= 0x1_0000_0000 * 0x1_0000_0000) by (nonlinear_arith)
            requires -0x1_0000_0000 <= dy <= 0x1_0000_0000;
        assert(rs * rs <= 0x1_0000_0000 * 0x1_0000_0000) by (nonlinear_arith)
            requires 0 <= rs <= 0x1_0000_0000;
        assert(0 <= dx * dx) by (nonlinear_arith);
        assert(0 <= dy * dy) by (nonlinear_arith);
        dx * dx + dy * dy <= rs * rs
    }

    /// The elastic collision of `self` and `other` with the default share of
    /// tangential velocity kept, `HEAT_DISSIPATION_NUM / HEAT_DISSIPATION_DEN`.
    pub fn collide(&mut self, other: &mut Ball, dt: i64)
        requires
            old(self).wf(),
            old(other).wf(),
            1 <= dt <= DT_LIMIT,
        ensures
            final(self).wf(),
            final(other).wf(),
            old(self).approaching(*old(other)) ==> {
                &&& *final(self) == old(self).with_velocity(
                    old(self).collision_velocity(*old(other), Ratio { num: HEAT_DISSIPATION_NUM, den: HEAT_DISSIPATION_DEN }),
                    dt as int,
                )
                &&& *final(other) == old(other).with_velocity(
                    old(other).collision_velocity(*old(self), Ratio { num: HEAT_DISSIPATION_NUM, den: HEAT_DISSIPATION_DEN }),
                    dt as int,
                )
            },
            !old(self).approaching(*old(other)) ==> *final(self) == *old(self) && *final(other) == *old(other),
    {
        self.collide_with(other, dt, Ratio::new(HEAT_DISSIPATION_NUM, HEAT_DISSIPATION_DEN));
    }

    /// The elastic collision of `self` and `other` along their line of centers,
    /// keeping `heat` of each tangential velocity; both take their new velocity
    /// through `set_velocity`. A pair that is not approaching is left alone.
    pub fn collide_with(&mut self, other: &mut Ball, dt: i64, heat: Ratio)
        requires
            old(self).wf(),
            old(other).wf(),
            1 <= dt <= DT_LIMIT,
            heat.wf(),
        ensures
            final(self).wf(),
            final(other).wf(),
            old(self).approaching(*old(other)) ==> {
                &&& *final(self) == old(self).with_velocity(old(self).collision_velocity(*old(other), heat), dt as int)
                &&& *final(other) == old(other).with_velocity(old(other).collision_velocity(*old(self), heat), dt as int)
            },
            !old(self).approaching(*old(other)) ==> *final(self) == *old(self) && *final(other) == *old(other),
    {
        let nx: i128 = self.position.x as i128 - other.position.x as i128;
        let ny: i128 = self.position.y as i128 - other.position.y as i128;
        let rvx: i128 = self.velocity.x as i128 - other.velocity.x as i128;
        let rvy: i128 = self.velocity.y as i128 - other.velocity.y as i128;
        proof {
            lemma_mul_bound(rvx as int, nx as int, 0x20_0000, 0x1_0000_0000);
            lemma_mul_bound(rvy as int, ny as int, 0x20_0000, 0x1_0000_0000);
        }
        if rvx * nx + rvy * ny >= 0 {
            return;
        }
        proof {
            assert(nx != 0 || ny != 0);
            lemma_mul_bound(nx as int, nx as int, 0x1_0000_0000, 0x1_0000_0000);
            lemma_mul_bound(ny as int, ny as int, 0x1_0000_0000, 0x1_0000_0000);
            assert(nx * nx + ny * ny > 0) by (nonlinear_arith)
                requires nx != 0 || ny != 0;
        }
        let d2: i128 = nx * nx + ny * ny;
        let sm: i128 = (self.mass + other.mass) as i128;
        proof {
            lemma_mul_bound(sm as int, heat.den as int, 0x20_0000, 0x400);
            assert(sm * heat.den > 0) by (nonlinear_arith)
                requires sm >= 1, heat.den >= 1;
            lemma_mul_bound((sm * heat.den) as int, d2 as int, 0x8000_0000, 0x2_0000_0000_0000_0000);
            assert(sm * heat.den * d2 > 0) by (nonlinear_arith)
                requires sm * heat.den > 0, d2 > 0;
        }
        let d: i128 = sm * heat.den as i128 * d2;
        let n1 = response(nx, ny, self.velocity, other.velocity, self.mass, other.mass, heat);
        let n2 = response(-nx, -ny, other.velocity, self.velocity, other.mass, self.mass, heat);
        proof {
            assert(response_denominator(-nx as int, -ny as int, other.mass as int, self.mass as int, heat.den as int) == d) by (nonlinear_arith)
                requires d == sm * heat.den * d2, d2 == nx * nx + ny * ny, sm == self.mass + other.mass;
        }
        let v1 = IVec2 {
            x: clamp(round_div(n1.0, d), SPEED_LIMIT),
            y: clamp(round_div(n1.1, d), SPEED_LIMIT),
        };
        let v2 = IVec2 {
            x: clamp(round_div(n2.0, d), SPEED_LIMIT),
            y: clamp(round_div(n2.1, d), SPEED_LIMIT),
        };
        self.set_velocity(v1, dt);
        other.set_velocity(v2, dt);
    }
}


/// The component of the scaled vector `v` along `(nx, ny)`, times the length
/// of `(nx, ny)`.
pub open spec fn along(v: (int, int), nx: int, ny: int) -> int {
    v.0 * nx + v.1 * ny
}

proof fn lemma_response_along(nx: int, ny: int, va: IVec2, vb: IVec2, ma: int, mb: int, hn: int, hd: int)
    ensures
        along(response_numerator(nx, ny, va, vb, ma, mb, hn, hd), nx, ny) == ((va.x * nx + va.y * ny) * (ma - mb)
            + 2 * mb * (vb.x * nx + vb.y * ny)) * hd * (nx * nx + ny * ny),
{
    let an = va.x * nx + va.y * ny;
    let bn = vb.x * nx + vb.y * ny;
    let at = va.y * nx - va.x * ny;
    let na = an * (ma - mb) + 2 * mb * bn;
    let tw = hn * (ma + mb) * at;
    let k = na * hd;
    assert((k * nx - tw * ny) * nx + (k * ny + tw * nx) * ny == k * (nx * nx + ny * ny)) by (nonlinear_arith);
    assert(k * (nx * nx + ny * ny) == na * hd * (nx * nx + ny * ny)) by (nonlinear_arith)
        requires k == na * hd;
}

proof fn lemma_response_along_reversed(nx: int, ny: int, va: IVec2, vb: IVec2, ma: int, mb: int, hn: int, hd: int)
    ensures
        along(response_numerator(-nx, -ny, vb, va, mb, ma, hn, hd), nx, ny) == ((vb.x * nx + vb.y * ny) * (mb - ma)
            + 2 * ma * (va.x * nx + va.y * ny)) * hd * (nx * nx + ny * ny),
{
    lemma_response_along(-nx, -ny, vb, va, mb, ma, hn, hd);
    let r = response_numerator(-nx, -ny, vb, va, mb, ma, hn, hd);
    let an = va.x * nx + va.y * ny;
    let bn = vb.x * nx + vb.y * ny;
    assert(vb.x * -nx + vb.y * -ny == -bn) by (nonlinear_arith)
        requires bn == vb.x * nx + vb.y * ny;
    assert(va.x * -nx + va.y * -ny == -an) by (nonlinear_arith)
        requires an == va.x * nx + va.y * ny;
    assert(-nx * -nx + -ny * -ny == nx * nx + ny * ny) by (nonlinear_arith);
    assert(along(r, nx, ny) == -along(r, -nx, -ny)) by (nonlinear_arith);
    let d2 = nx * nx + ny * ny;
    assert(-((-bn * (mb - ma) + 2 * ma * -an) * hd * d2) == (bn * (mb - ma) + 2 * ma * an) * hd * d2) by (nonlinear_arith);
}

/// Equal masses swap the normal components of their velocities: before
/// rounding to the grid, the velocity that each body takes has, along the
/// line of centers, the component that the other body had.
pub proof fn lemma_equal_masses_swap_normal(a: Ball, b: Ball, heat: Ratio)
    requires
        a.mass == b.mass,
    ensures
        along(a.collision_numerator(b, heat), a.position.x - b.position.x, a.position.y - b.position.y)
            == (b.velocity.x * (a.position.x - b.position.x) + b.velocity.y * (a.position.y - b.position.y))
            * a.collision_denominator(b, heat),
        along(b.collision_numerator(a, heat), a.position.x - b.position.x, a.position.y - b.position.y)
            == (a.velocity.x * (a.position.x - b.position.x) + a.velocity.y * (a.position.y - b.position.y))
            * a.collision_denominator(b, heat),
{
    let nx = a.position.x - b.position.x;
    let ny = a.position.y - b.position.y;
    let m = a.mass as int;
    let hd = heat.den as int;
    let d2 = nx * nx + ny * ny;
    let an = a.velocity.x * nx + a.velocity.y * ny;
    let bn = b.velocity.x * nx + b.velocity.y * ny;
    lemma_response_along(nx, ny, a.velocity, b.velocity, m, m, heat.num as int, hd);
    assert(b.position.x - a.position.x == -nx && b.position.y - a.position.y == -ny);
    lemma_response_along_reversed(nx, ny, a.velocity, b.velocity, m, m, heat.num as int, hd);
    assert((an * (m - m) + 2 * m * bn) * hd * d2 == bn * ((m + m) * hd * d2)) by (nonlinear_arith);
    assert((bn * (m - m) + 2 * m * an) * hd * d2 == an * ((m + m) * hd * d2)) by (nonlinear_arith);
}

/// A collision conserves momentum along the line of centers: before rounding
/// to the grid, `m1 * v1n + m2 * v2n` is the same after as before.
pub proof fn lemma_collision_momentum(a: Ball, b: Ball, heat: Ratio)
    ensures
        a.mass * along(a.collision_numerator(b, heat), a.position.x - b.position.x, a.position.y - b.position.y)
            + b.mass * along(b.collision_numerator(a, heat), a.position.x - b.position.x, a.position.y - b.position.y)
            == (a.mass * (a.velocity.x * (a.position.x - b.position.x) + a.velocity.y * (a.position.y - b.position.y))
            + b.mass * (b.velocity.x * (a.position.x - b.position.x) + b.velocity.y * (a.position.y - b.position.y)))
            * a.collision_denominator(b, heat),
{
    let nx = a.position.x - b.position.x;
    let ny = a.position.y - b.position.y;
    let ma = a.mass as int;
    let mb = b.mass as int;
    let hd = heat.den as int;
    let d2 = nx * nx + ny * ny;
    let an = a.velocity.x * nx + a.velocity.y * ny;
    let bn = b.velocity.x * nx + b.velocity.y * ny;
    lemma_response_along(nx, ny, a.velocity, b.velocity, ma, mb, heat.num as int, hd);
    assert(b.position.x - a.position.x == -nx && b.position.y - a.position.y == -ny);
    lemma_response_along_reversed(nx, ny, a.velocity, b.velocity, ma, mb, heat.num as int, hd);
    let e = hd * d2;
    let x = an * (ma - mb) + 2 * mb * bn;
    let y = bn * (mb - ma) + 2 * ma * an;
    lemma_momentum_identity(ma, mb, an, bn);
    assert(ma * (x * e) + mb * (y * e) == (ma * x + mb * y) * e) by (nonlinear_arith);
    assert((ma + mb) * (ma * an + mb * bn) * e == (ma * an + mb * bn) * ((ma + mb) * e)) by (nonlinear_arith);
    assert((an * (ma - mb) + 2 * mb * bn) * hd * d2 == (an * (ma - mb) + 2 * mb * bn) * e) by (nonlinear_arith)
        requires e == hd * d2;
    assert((bn * (mb - ma) + 2 * ma * an) * hd * d2 == (bn * (mb - ma) + 2 * ma * an) * e) by (nonlinear_arith)
        requires e == hd * d2;
    assert((ma + mb) * hd * d2 == (ma + mb) * e) by (nonlinear_arith)
        requires e == hd * d2;
}

proof fn lemma_momentum_identity(ma: int, mb: int, an: int, bn: int)
    ensures
        ma * (an * (ma - mb) + 2 * mb * bn) + mb * (bn * (mb - ma) + 2 * ma * an) == (ma + mb) * (ma * an + mb * bn),
{
    vstd::arithmetic::mul::lemma_mul_is_distributive_sub(an, ma, mb);
    vstd::arithmetic::mul::lemma_mul_is_distributive_sub(bn, mb, ma);
    assert(ma * (an * ma - an * mb + 2 * mb * bn) == ma * (an * ma) - ma * (an * mb) + ma * (2 * mb * bn)) by (nonlinear_arith);
    assert(mb * (bn * mb - bn * ma + 2 * ma * an) == mb * (bn * mb) - mb * (bn * ma) + mb * (2 * ma * an)) by (nonlinear_arith);
    assert((ma + mb) * (ma * an + mb * bn) == ma * (ma * an) + ma * (mb * bn) + mb * (ma * an) + mb * (mb * bn)) by (nonlinear_arith);
    assert(ma * (an * mb) == mb * (ma * an)) by (nonlinear_arith);
    assert(mb * (bn * ma) == ma * (mb * bn)) by (nonlinear_arith);
    assert(ma * (2 * mb * bn) == 2 * (ma * (mb * bn))) by (nonlinear_arith);
    assert(mb * (2 * ma * an) == 2 * (mb * (ma * an))) by (nonlinear_arith);
    assert(ma * (an * ma) == ma * (ma * an)) by (nonlinear_arith);
    assert(mb * (bn * mb) == mb * (mb * bn)) by (nonlinear_arith);
}

/// The velocity that a collision gives is the exact scaled velocity rounded
/// to the grid: unless the speed limit cuts it, each component times the
/// denominator lies within half the denominator of the numerator.
pub proof fn lemma_collision_velocity_close(a: Ball, b: Ball, heat: Ratio)
    requires
        a.collision_denominator(b, heat) > 0,
    ensures
        ({
            let n = a.collision_numerator(b, heat);
            let d = a.collision_denominator(b, heat);
            let v = a.collision_velocity(b, heat);
            &&& -SPEED_LIMIT < v.x < SPEED_LIMIT ==> -d < 2 * (v.x * d - n.0) <= d
            &&& -SPEED_LIMIT < v.y < SPEED_LIMIT ==> -d < 2 * (v.y * d - n.1) <= d
        }),
{
    let n = a.collision_numerator(b, heat);
    let d = a.collision_denominator(b, heat);
    lemma_round_div_close(n.0, d);
    lemma_round_div_close(n.1, d);
}

/// The rounding margin along `(nx, ny)`: the sum of the magnitudes of its
/// components.
pub open spec fn grid_margin(nx: int, ny: int) -> int {
    (vstd::math::abs(nx) + vstd::math::abs(ny)) as int
}

/// Whether neither component of the velocity that `a` takes on meeting `b`
/// is cut by the speed limit.
pub open spec fn unclamped(a: Ball, b: Ball, heat: Ratio) -> bool {
    let v = a.collision_velocity(b, heat);
    -SPEED_LIMIT < v.x < SPEED_LIMIT && -SPEED_LIMIT < v.y < SPEED_LIMIT
}

/// A vector rounded component by component from `n / d` lies, along
/// `(nx, ny)`, within half the margin of the exact one.
proof fn lemma_rounded_along(v: IVec2, n: (int, int), d: int, nx: int, ny: int)
    requires
        d > 0,
        -d < 2 * (v.x * d - n.0) <= d,
        -d < 2 * (v.y * d - n.1) <= d,
    ensures
        -(d * grid_margin(nx, ny)) <= 2 * ((v.x * nx + v.y * ny) * d - along(n, nx, ny)) <= d * grid_margin(nx, ny),
{
    let ex = v.x * d - n.0;
    let ey = v.y * d - n.1;
    let ax = vstd::math::abs(nx) as int;
    let ay = vstd::math::abs(ny) as int;
    assert(-ax <= nx <= ax);
    assert(-ay <= ny <= ay);
    lemma_mul_bound(2 * ex, nx, d, ax);
    lemma_mul_bound(2 * ey, ny, d, ay);
    assert(ex * nx == (v.x * d) * nx - n.0 * nx) by (nonlinear_arith)
        requires ex == v.x * d - n.0;
    assert(ey * ny == (v.y * d) * ny - n.1 * ny) by (nonlinear_arith)
        requires ey == v.y * d - n.1;
    assert((v.x * nx + v.y * ny) * d == (v.x * d) * nx + (v.y * d) * ny) by (nonlinear_arith);
    assert((2 * ex) * nx == 2 * (ex * nx)) by (nonlinear_arith);
    assert((2 * ey) * ny == 2 * (ey * ny)) by (nonlinear_arith);
    assert(d * ax + d * ay == d * grid_margin(nx, ny)) by (nonlinear_arith)
        requires grid_margin(nx, ny) == ax + ay;
}

/// The shared denominator of a collision is positive and the same seen from
/// either body.
proof fn lemma_collision_denominator(a: Ball, b: Ball, heat: Ratio)
    requires
        a.wf(),
        b.wf(),
        heat.wf(),
        a.position != b.position,
    ensures
        a.collision_denominator(b, heat) > 0,
        b.collision_denominator(a, heat) == a.collision_denominator(b, heat),
{
    let nx = a.position.x - b.position.x;
    let ny = a.position.y - b.position.y;
    assert(nx != 0 || ny != 0);
    assert(nx * nx + ny * ny > 0) by (nonlinear_arith)
        requires nx != 0 || ny != 0;
    let ma = a.mass as int;
    let mb = b.mass as int;
    let hd = heat.den as int;
    assert((ma + mb) * hd * (nx * nx + ny * ny) > 0) by (nonlinear_arith)
        requires ma >= 1, mb >= 1, hd >= 1, nx * nx + ny * ny > 0;
    assert((-nx) * (-nx) + (-ny) * (-ny) == nx * nx + ny * ny) by (nonlinear_arith);
    assert((mb + ma) * hd == (ma + mb) * hd) by (nonlinear_arith);
}

/// A collision conserves momentum along the line of centers up to the
/// rounding of the new velocities to the grid: with `n` the line of centers
/// (not normalised), `m1 * v1n + m2 * v2n` after differs from before by at
/// most `(m1 + m2) * (|n.x| + |n.y|) / 2`, that is by less than the total
/// mass times one grid unit along the unit normal.
pub proof fn lemma_collision_momentum_rounded(a: Ball, b: Ball, heat: Ratio)
    requires
        a.wf(),
        b.wf(),
        heat.wf(),
        a.position != b.position,
        unclamped(a, b, heat),
        unclamped(b, a, heat),
    ensures
        ({
            let nx = a.position.x - b.position.x;
            let ny = a.position.y - b.position.y;
            let va = a.collision_velocity(b, heat);
            let vb = b.collision_velocity(a, heat);
            let after = a.mass * (va.x * nx + va.y * ny) + b.mass * (vb.x * nx + vb.y * ny);
            let before = a.mass * (a.velocity.x * nx + a.velocity.y * ny) + b.mass * (b.velocity.x * nx + b.velocity.y * ny);
            -((a.mass + b.mass) * grid_margin(nx, ny)) <= 2 * (after - before) <= (a.mass + b.mass) * grid_margin(nx, ny)
        }),
{
    let nx = a.position.x - b.position.x;
    let ny = a.position.y - b.position.y;
    let ma = a.mass as int;
    let mb = b.mass as int;
    let va = a.collision_velocity(b, heat);
    let vb = b.collision_velocity(a, heat);
    let na = a.collision_numerator(b, heat);
    let nb = b.collision_numerator(a, heat);
    let d = a.collision_denominator(b, heat);
    let s = grid_margin(nx, ny);
    lemma_collision_denominator(a, b, heat);
    lemma_collision_velocity_close(a, b, heat);
    lemma_collision_velocity_close(b, a, heat);
    lemma_rounded_along(va, na, d, nx, ny);
    lemma_rounded_along(vb, nb, d, nx, ny);
    lemma_collision_momentum(a, b, heat);
    let after = ma * (va.x * nx + va.y * ny) + mb * (vb.x * nx + vb.y * ny);
    let before = ma * (a.velocity.x * nx + a.velocity.y * ny) + mb * (b.velocity.x * nx + b.velocity.y * ny);
    let ea = 2 * ((va.x * nx + va.y * ny) * d - along(na, nx, ny));
    let eb = 2 * ((vb.x * nx + vb.y * ny) * d - along(nb, nx, ny));
    let pa = va.x * nx + va.y * ny;
    let pb = vb.x * nx + vb.y * ny;
    let la = along(na, nx, ny);
    let lb = along(nb, nx, ny);
    assert(after * d == ma * (pa * d) + mb * (pb * d)) by (nonlinear_arith)
        requires after == ma * pa + mb * pb;
    assert(ma * ea == 2 * (ma * (pa * d)) - 2 * (ma * la)) by (nonlinear_arith)
        requires ea == 2 * (pa * d - la);
    assert(mb * eb == 2 * (mb * (pb * d)) - 2 * (mb * lb)) by (nonlinear_arith)
        requires eb == 2 * (pb * d - lb);
    assert(2 * (after - before) * d == 2 * (after * d) - 2 * (before * d)) by (nonlinear_arith);
    lemma_mul_bound(ma, ea, ma, d * s);
    lemma_mul_bound(mb, eb, mb, d * s);
    assert(-((ma + mb) * s) <= 2 * (after - before) <= (ma + mb) * s) by (nonlinear_arith)
        requires
            2 * (after - before) * d == ma * ea + mb * eb,
            -(ma * (d * s)) <= ma * ea <= ma * (d * s),
            -(mb * (d * s)) <= mb * eb <= mb * (d * s),
            d > 0;
}

/// Equal masses swap the normal components of their velocities up to the
/// rounding to the grid: along the line of centers `n` (not normalised), each
/// body's new velocity lies within half the margin of the other body's old
/// one; where the exact quotients fall on the grid the swap is exact.
pub proof fn lemma_equal_masses_swap_rounded(a: Ball, b: Ball, heat: Ratio)
    requires
        a.wf(),
        b.wf(),
        heat.wf(),
        a.position != b.position,
        a.mass == b.mass,
        unclamped(a, b, heat),
        unclamped(b, a, heat),
    ensures
        ({
            let nx = a.position.x - b.position.x;
            let ny = a.position.y - b.position.y;
            let va = a.collision_velocity(b, heat);
            let vb = b.collision_velocity(a, heat);
            &&& -grid_margin(nx, ny) <= 2 * ((va.x * nx + va.y * ny) - (b.velocity.x * nx + b.velocity.y * ny)) <= grid_margin(nx, ny)
            &&& -grid_margin(nx, ny) <= 2 * ((vb.x * nx + vb.y * ny) - (a.velocity.x * nx + a.velocity.y * ny)) <= grid_margin(nx, ny)
        }),
{
    let nx = a.position.x - b.position.x;
    let ny = a.position.y - b.position.y;
    let va = a.collision_velocity(b, heat);
    let vb = b.collision_velocity(a, heat);
    let na = a.collision_numerator(b, heat);
    let nb = b.collision_numerator(a, heat);
    let d = a.collision_denominator(b, heat);
    let s = grid_margin(nx, ny);
    lemma_collision_denominator(a, b, heat);
    lemma_collision_velocity_close(a, b, heat);
    lemma_collision_velocity_close(b, a, heat);
    lemma_rounded_along(va, na, d, nx, ny);
    lemma_rounded_along(vb, nb, d, nx, ny);
    lemma_equal_masses_swap_normal(a, b, heat);
    let x = (va.x * nx + va.y * ny) - (b.velocity.x * nx + b.velocity.y * ny);
    let y = (vb.x * nx + vb.y * ny) - (a.velocity.x * nx + a.velocity.y * ny);
    assert(-s <= 2 * x <= s) by (nonlinear_arith)
        requires
            along(na, nx, ny) == (b.velocity.x * nx + b.velocity.y * ny) * d,
            -(d * s) <= 2 * ((va.x * nx + va.y * ny) * d - along(na, nx, ny)) <= d * s,
            x == (va.x * nx + va.y * ny) - (b.velocity.x * nx + b.velocity.y * ny),
            d > 0;
    assert(-s <= 2 * y <= s) by (nonlinear_arith)
        requires
            along(nb, nx, ny) == (a.velocity.x * nx + a.velocity.y * ny) * d,
            -(d * s) <= 2 * ((vb.x * nx + vb.y * ny) * d - along(nb, nx, ny)) <= d * s,
            y == (vb.x * nx + vb.y * ny) - (a.velocity.x * nx + a.velocity.y * ny),
            d > 0;
}

/// A collision that is not too slow leaves the pair separating, so that a
/// second `collide_with` on it changes nothing: where the bodies approach
/// along the line of centers `n` (not normalised) at least as fast as the
/// rounding margin, their new velocities do not approach.
pub proof fn lemma_collision_leaves_separating(a: Ball, b: Ball, heat: Ratio, dt: int)
    requires
        a.wf(),
        b.wf(),
        heat.wf(),
        unclamped(a, b, heat),
        unclamped(b, a, heat),
        (a.velocity.x - b.velocity.x) * (a.position.x - b.position.x) + (a.velocity.y - b.velocity.y) * (a.position.y
            - b.position.y) <= -grid_margin(a.position.x - b.position.x, a.position.y - b.position.y),
    ensures
        !a.with_velocity(a.collision_velocity(b, heat), dt).approaching(b.with_velocity(b.collision_velocity(a, heat), dt)),
{
    let nx = a.position.x - b.position.x;
    let ny = a.position.y - b.position.y;
    let s = grid_margin(nx, ny);
    assert(s >= 0);
    if a.position == b.position {
        let wa = a.collision_velocity(b, heat);
        let wb = b.collision_velocity(a, heat);
        assert((wa.x - wb.x) * nx + (wa.y - wb.y) * ny == 0) by (nonlinear_arith)
            requires nx == 0, ny == 0;
        return;
    }
    let va = a.collision_velocity(b, heat);
    let vb = b.collision_velocity(a, heat);
    let na = a.collision_numerator(b, heat);
    let nb = b.collision_numerator(a, heat);
    let d = a.collision_denominator(b, heat);
    lemma_collision_denominator(a, b, heat);
    lemma_collision_velocity_close(a, b, heat);
    lemma_collision_velocity_close(b, a, heat);
    lemma_rounded_along(va, na, d, nx, ny);
    lemma_rounded_along(vb, nb, d, nx, ny);
    lemma_collision_separates(a, b, heat);
    let r = (a.velocity.x - b.velocity.x) * nx + (a.velocity.y - b.velocity.y) * ny;
    let after = (va.x - vb.x) * nx + (va.y - vb.y) * ny;
    assert(after >= 0) by (nonlinear_arith)
        requires
            along(na, nx, ny) - along(nb, nx, ny) == -r * d,
            -(d * s) <= 2 * ((va.x * nx + va.y * ny) * d - along(na, nx, ny)) <= d * s,
            -(d * s) <= 2 * ((vb.x * nx + vb.y * ny) * d - along(nb, nx, ny)) <= d * s,
            after == (va.x - vb.x) * nx + (va.y - vb.y) * ny,
            r <= -s,
            d > 0;
}

/// A collision reverses the approach: before rounding to the grid, the
/// relative velocity of the pair along the line of centers after the
/// collision is the one before, negated, so an approaching pair leaves
/// separating and a second collision finds nothing to do.
pub proof fn lemma_collision_separates(a: Ball, b: Ball, heat: Ratio)
    ensures
        along(a.collision_numerator(b, heat), a.position.x - b.position.x, a.position.y - b.position.y)
            - along(b.collision_numerator(a, heat), a.position.x - b.position.x, a.position.y - b.position.y)
            == -((a.velocity.x - b.velocity.x) * (a.position.x - b.position.x) + (a.velocity.y - b.velocity.y) * (
            a.position.y - b.position.y)) * a.collision_denominator(b, heat),
{
    let nx = a.position.x - b.position.x;
    let ny = a.position.y - b.position.y;
    let ma = a.mass as int;
    let mb = b.mass as int;
    let hd = heat.den as int;
    let d2 = nx * nx + ny * ny;
    let an = a.velocity.x * nx + a.velocity.y * ny;
    let bn = b.velocity.x * nx + b.velocity.y * ny;
    lemma_response_along(nx, ny, a.velocity, b.velocity, ma, mb, heat.num as int, hd);
    assert(b.position.x - a.position.x == -nx && b.position.y - a.position.y == -ny);
    lemma_response_along_reversed(nx, ny, a.velocity, b.velocity, ma, mb, heat.num as int, hd);
    let x = an * (ma - mb) + 2 * mb * bn;
    let y = bn * (mb - ma) + 2 * ma * an;
    assert(x - y == -(an - bn) * (ma + mb)) by (nonlinear_arith)
        requires x == an * (ma - mb) + 2 * mb * bn, y == bn * (mb - ma) + 2 * ma * an;
    assert((a.velocity.x - b.velocity.x) * nx + (a.velocity.y - b.velocity.y) * ny == an - bn) by (nonlinear_arith)
        requires an == a.velocity.x * nx + a.velocity.y * ny, bn == b.velocity.x * nx + b.velocity.y * ny;
    assert(x * hd * d2 - y * hd * d2 == (x - y) * hd * d2) by (nonlinear_arith);
    assert(-(an - bn) * (ma + mb) * hd * d2 == -(an - bn) * ((ma + mb) * hd * d2)) by (nonlinear_arith);
}

/// Verlet round trip: after `set_velocity(v, dt)`, one Verlet step of `dt`
/// with no acceleration moves the body by `v * dt` and reads back `v`, as
/// long as the new position stays in the coordinate range.
pub proof fn lemma_verlet_round_trip(b: Ball, v: IVec2, dt: int)
    requires
        b.wf(),
        within(v, SPEED_LIMIT as int),
        1 <= dt <= DT_LIMIT,
        -COORD_LIMIT <= b.position.x + v.x * dt <= COORD_LIMIT,
        -COORD_LIMIT <= b.position.y + v.y * dt <= COORD_LIMIT,
    ensures
        b.with_velocity(v, dt).verlet_spec(dt, IVec2 { x: 0, y: 0 }).velocity == v,
        b.with_velocity(v, dt).verlet_spec(dt, IVec2 { x: 0, y: 0 }).position.x == b.position.x + v.x * dt,
        b.with_velocity(v, dt).verlet_spec(dt, IVec2 { x: 0, y: 0 }).position.y == b.position.y + v.y * dt,
{
    lemma_velocity_step(v, dt);
    let s = b.with_velocity(v, dt);
    assert(s.prev_position.x == b.position.x - v.x * dt);
    assert(s.prev_position.y == b.position.y - v.y * dt);
    assert(0 * dt * dt == 0) by (nonlinear_arith);
    let r = s.verlet_spec(dt, IVec2 { x: 0, y: 0 });
    assert(r.position.x == b.position.x + v.x * dt);
    assert(r.position.y == b.position.y + v.y * dt);
    lemma_round_div_exact(v.x as int, dt);
    lemma_round_div_exact(v.y as int, dt);
}

/// `round_div_spec` is exact on a multiple of the divisor.
proof fn lemma_round_div_exact(q: int, d: int)
    requires
        d > 0,
    ensures
        round_div_spec(q * d, d) == q,
{
    assert(2 * (q * d) + d == q * (2 * d) + d) by (nonlinear_arith);
    vstd::arithmetic::div_mod::lemma_fundamental_div_mod_converse(2 * (q * d) + d, 2 * d, q, d);
}

} // verus!
