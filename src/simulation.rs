//! The per-frame step: gravity from fixed attractors, integration, pairwise
//! collisions found through the quadtree, and contact with fixed bodies.

use vstd::prelude::*;
use crate::ball::{ACC_LIMIT, Ball, DT_LIMIT, Ratio, SPEED_LIMIT, within};
use crate::quad_tree::{QuadTree, QuadTreeEntry};
use crate::fixed::{
    clamp, clamp_spec, isqrt, lemma_clamp_neg, lemma_mul_bound, lemma_round_div_sym_neg, round_div, round_div_spec,
    round_div_sym, round_div_sym_spec, sqrt_spec,
};
use crate::geometry::{COORD_LIMIT, IVec2, Rect};

verus! {

/// The largest gravitational constant.
pub const GRAVITY_LIMIT: i64 = 0x1_0000_0000_0000;

/// The pull of `body` on `ball` under the gravitational constant `g`, along
/// the line from `ball` to `body`, of size `g * M * m` over the squared
/// distance, with the distance taken as the integer square root and halves
/// rounded away from zero; zero when the centers coincide.
pub open spec fn gravity_spec(ball: Ball, body: Ball, g: int) -> IVec2 {
    let dx = body.position.x - ball.position.x;
    let dy = body.position.y - ball.position.y;
    let d2 = dx * dx + dy * dy;
    let k = g * body.mass * ball.mass;
    let den = d2 * sqrt_spec(d2);
    if d2 == 0 {
        IVec2 { x: 0, y: 0 }
    } else {
        IVec2 {
            x: clamp_spec(round_div_sym_spec(dx * k, den), ACC_LIMIT as int) as i64,
            y: clamp_spec(round_div_sym_spec(dy * k, den), ACC_LIMIT as int) as i64,
        }
    }
}

/// The pulls of the first `n` of `bodies` on `ball`, summed with saturation at
/// the acceleration limit.
pub open spec fn gravity_sum(ball: Ball, bodies: Seq<Ball>, g: int, n: int) -> IVec2
    decreases n,
{
    if n <= 0 {
        IVec2 { x: 0, y: 0 }
    } else {
        let s = gravity_sum(ball, bodies, g, n - 1);
        let f = gravity_spec(ball, bodies[n - 1], g);
        IVec2 {
            x: clamp_spec(s.x + f.x, ACC_LIMIT as int) as i64,
            y: clamp_spec(s.y + f.y, ACC_LIMIT as int) as i64,
        }
    }
}

/// Gravity is equal and opposite: the pull of `b` on `a` is the negation of
/// the pull of `a` on `b`.
pub proof fn lemma_gravity_opposite(a: Ball, b: Ball, g: int)
    ensures
        gravity_spec(a, b, g).x == -gravity_spec(b, a, g).x,
        gravity_spec(a, b, g).y == -gravity_spec(b, a, g).y,
{
    let dx = b.position.x - a.position.x;
    let dy = b.position.y - a.position.y;
    let d2 = dx * dx + dy * dy;
    assert((-dx) * (-dx) + (-dy) * (-dy) == d2) by (nonlinear_arith)
        requires d2 == dx * dx + dy * dy;
    let k = g * b.mass * a.mass;
    assert(g * a.mass * b.mass == k) by (nonlinear_arith)
        requires k == g * b.mass * a.mass;
    let den = d2 * sqrt_spec(d2);
    if d2 != 0 {
        assert(d2 > 0) by (nonlinear_arith)
            requires d2 == dx * dx + dy * dy, d2 != 0;
        assert(sqrt_spec(d2) >= 1) by {
            crate::fixed::lemma_sqrt_unique(1, 1);
            lemma_sqrt_monotone(1, d2);
        }
        assert(den > 0) by (nonlinear_arith)
            requires den == d2 * sqrt_spec(d2), d2 > 0, sqrt_spec(d2) >= 1;
        assert((-dx) * k == -(dx * k)) by (nonlinear_arith);
        assert((-dy) * k == -(dy * k)) by (nonlinear_arith);
        lemma_round_div_sym_neg(dx * k, den);
        lemma_round_div_sym_neg(dy * k, den);
        lemma_clamp_neg(round_div_sym_spec(dx * k, den), ACC_LIMIT as int);
        lemma_clamp_neg(round_div_sym_spec(dy * k, den), ACC_LIMIT as int);
    }
}

/// The integer square root does not decrease.
proof fn lemma_sqrt_monotone(m: int, n: int)
    requires
        m <= n,
    ensures
        sqrt_spec(m) <= sqrt_spec(n),
    decreases n - m,
{
    if m < n {
        lemma_sqrt_monotone(m, n - 1);
        if n > 0 {
            assert(sqrt_spec(n - 1) <= sqrt_spec(n));
        }
    }
}

/// The velocity of a circular orbit of `b1` around `b2`: perpendicular to the
/// line between them, of speed `sqrt(g * m1 * m2 / r)`, with `r` and the square
/// root taken on integers; zero when the centers coincide.
pub open spec fn orbital_spec(b1: Ball, b2: Ball, g: int) -> IVec2 {
    let dx = b2.position.x - b1.position.x;
    let dy = b2.position.y - b1.position.y;
    let r = sqrt_spec(dx * dx + dy * dy);
    let speed = sqrt_spec(round_div_spec(g * b2.mass * b1.mass, r));
    if r == 0 {
        IVec2 { x: 0, y: 0 }
    } else {
        IVec2 {
            x: clamp_spec(round_div_spec(dy * speed, r), SPEED_LIMIT as int) as i64,
            y: clamp_spec(round_div_spec(-dx * speed, r), SPEED_LIMIT as int) as i64,
        }
    }
}

proof fn lemma_square_bound(a: int, x: int)
    requires
        -x <= a <= x,
    ensures
        0 <= a * a <= x * x,
{
    assert(0 <= a * a <= x * x) by (nonlinear_arith)
        requires -x <= a <= x;
}

/// The gravitational pull of `body` on `ball`.
pub fn get_gravity_force(ball: &Ball, body: &Ball, gravity: i64) -> (r: IVec2)
    requires
        ball.wf(),
        body.wf(),
        0 <= gravity <= GRAVITY_LIMIT,
    ensures
        r == gravity_spec(*ball, *body, gravity as int),
        within(r, ACC_LIMIT as int),
{
    let dx: i128 = body.position.x as i128 - ball.position.x as i128;
    let dy: i128 = body.position.y as i128 - ball.position.y as i128;
    proof {
        lemma_square_bound(dx as int, 0x1_0000_0000);
        lemma_square_bound(dy as int, 0x1_0000_0000);
    }
    let d2: i128 = dx * dx + dy * dy;
    if d2 == 0 {
        return IVec2 { x: 0, y: 0 };
    }
    let s: u128 = isqrt(d2 as u128);
    proof {
        assert(s <= 0x4_0000_0000) by (nonlinear_arith)
            requires s * s <= d2, d2 <= 0x2_0000_0000_0000_0000, 0 <= s;
        assert(s >= 1) by (nonlinear_arith)
            requires d2 < (s + 1) * (s + 1), d2 >= 1, 0 <= s;
        lemma_mul_bound(gravity as int, body.mass as int, 0x1_0000_0000_0000, 0x10_0000);
        lemma_mul_bound((gravity * body.mass) as int, ball.mass as int, (0x1_0000_0000_0000 * 0x10_0000) as int, 0x10_0000);
        lemma_mul_bound(d2 as int, s as int, 0x2_0000_0000_0000_0000, 0x4_0000_0000);
        assert(d2 * s >= 1) by (nonlinear_arith)
            requires d2 >= 1, s >= 1;
    }
    let k: i128 = gravity as i128 * body.mass as i128 * ball.mass as i128;
    proof {
        lemma_mul_bound(dx as int, k as int, 0x1_0000_0000, (0x1_0000_0000_0000 * 0x10_0000 * 0x10_0000) as int);
        lemma_mul_bound(dy as int, k as int, 0x1_0000_0000, (0x1_0000_0000_0000 * 0x10_0000 * 0x10_0000) as int);
    }
    let den: i128 = d2 * s as i128;
    IVec2 {
        x: clamp(round_div_sym(dx * k, den), ACC_LIMIT),
        y: clamp(round_div_sym(dy * k, den), ACC_LIMIT),
    }
}

/// The velocity that puts `b1` on a circular orbit around `b2`.
pub fn get_orbital_velocity(b1: &Ball, b2: &Ball, gravity: i64) -> (r: IVec2)
    requires
        b1.wf(),
        b2.wf(),
        0 <= gravity <= GRAVITY_LIMIT,
    ensures
        r == orbital_spec(*b1, *b2, gravity as int),
        within(r, SPEED_LIMIT as int),
{
    let dx: i128 = b2.position.x as i128 - b1.position.x as i128;
    let dy: i128 = b2.position.y as i128 - b1.position.y as i128;
    proof {
        lemma_square_bound(dx as int, 0x1_0000_0000);
        lemma_square_bound(dy as int, 0x1_0000_0000);
    }
    let r: u128 = isqrt((dx * dx + dy * dy) as u128);
    if r == 0 {
        return IVec2 { x: 0, y: 0 };
    }
    proof {
        assert(r <= 0x4_0000_0000) by (nonlinear_arith)
            requires r * r <= dx * dx + dy * dy, dx * dx + dy * dy <= 0x2_0000_0000_0000_0000, 0 <= r;
        lemma_mul_bound(gravity as int, b2.mass as int, 0x1_0000_0000_0000, 0x10_0000);
        lemma_mul_bound((gravity * b2.mass) as int, b1.mass as int, (0x1_0000_0000_0000 * 0x10_0000) as int, 0x10_0000);
    }
    let k: i128 = gravity as i128 * b2.mass as i128 * b1.mass as i128;
    let q: i128 = round_div(k, r as i128);
    proof {
        assert(0 <= q <= k) by {
            let n = 2 * k + r;
            let m = 2 * r;
            vstd::arithmetic::div_mod::lemma_fundamental_div_mod(n as int, m as int);
            vstd::arithmetic::div_mod::lemma_div_pos_is_pos(n as int, m as int);
            assert(q == n / m);
            assert(m * q <= n);
            assert(q <= k) by (nonlinear_arith)
                requires m * q <= n, n == 2 * k + r, m == 2 * r, r >= 1, k >= 0;
        }
    }
    let speed: u128 = isqrt(q as u128);
    proof {
        assert(speed <= 0x1_0000_0000_0000) by (nonlinear_arith)
            requires speed * speed <= q, q <= 0x1_0000_0000_0000 * 0x10_0000 * 0x10_0000, 0 <= speed;
        lemma_mul_bound(dy as int, speed as int, 0x1_0000_0000, 0x1_0000_0000_0000);
        lemma_mul_bound(-dx as int, speed as int, 0x1_0000_0000, 0x1_0000_0000_0000);
    }
    let sp: i128 = speed as i128;
    IVec2 {
        x: clamp(round_div(dy * sp, r as i128), SPEED_LIMIT),
        y: clamp(round_div(-dx * sp, r as i128), SPEED_LIMIT),
    }
}


/// The summed pull of every one of `bodies` on `ball`.
pub fn total_gravity(ball: &Ball, bodies: &Vec<Ball>, gravity: i64) -> (r: IVec2)
    requires
        ball.wf(),
        forall|j: int| 0 <= j < bodies@.len() ==> (#[trigger] bodies@[j]).wf(),
        0 <= gravity <= GRAVITY_LIMIT,
    ensures
        r == gravity_sum(*ball, bodies@, gravity as int, bodies@.len() as int),
        within(r, ACC_LIMIT as int),
{
    let mut acc = IVec2 { x: 0, y: 0 };
    let mut j: usize = 0;
    while j < bodies.len()
        invariant
            j <= bodies@.len(),
            ball.wf(),
            forall|k: int| 0 <= k < bodies@.len() ==> (#[trigger] bodies@[k]).wf(),
            0 <= gravity <= GRAVITY_LIMIT,
            acc == gravity_sum(*ball, bodies@, gravity as int, j as int),
            within(acc, ACC_LIMIT as int),
        decreases bodies@.len() - j,
    {
        let f = get_gravity_force(ball, &bodies[j], gravity);
        acc = IVec2 {
            x: clamp((acc.x + f.x) as i128, ACC_LIMIT),
            y: clamp((acc.y + f.y) as i128, ACC_LIMIT),
        };
        j = j + 1;
    }
    acc
}

/// The acceleration that `integrate` gives body `i`: none for the excluded
/// body, else the pull of the fixed bodies.
pub open spec fn acceleration_of(ball: Ball, i: int, fixed: Seq<Ball>, g: int, excluded: Option<usize>) -> IVec2 {
    if excluded == Some(i as usize) {
        IVec2 { x: 0, y: 0 }
    } else {
        gravity_sum(ball, fixed, g, fixed.len() as int)
    }
}

/// The bodies after `integrate`.
pub open spec fn integrated(bodies: Seq<Ball>, fixed: Seq<Ball>, g: int, dt: int, excluded: Option<usize>) -> Seq<Ball> {
    Seq::new(bodies.len(), |i: int| bodies[i].verlet_spec(dt, acceleration_of(bodies[i], i, fixed, g, excluded)))
}

pub open spec fn all_wf(bodies: Seq<Ball>) -> bool {
    forall|i: int| 0 <= i < bodies.len() ==> (#[trigger] bodies[i]).wf()
}

/// Moves every body one Verlet step of `dt` under the pull of the fixed
/// bodies; the body at `excluded`, one that the user holds, feels no pull.
pub fn integrate(bodies: &mut Vec<Ball>, fixed: &Vec<Ball>, gravity: i64, dt: i64, excluded: Option<usize>)
    requires
        all_wf(old(bodies)@),
        all_wf(fixed@),
        0 <= gravity <= GRAVITY_LIMIT,
        1 <= dt <= DT_LIMIT,
    ensures
        final(bodies)@.len() == old(bodies)@.len(),
        all_wf(final(bodies)@),
        final(bodies)@ == integrated(old(bodies)@, fixed@, gravity as int, dt as int, excluded),
{
    let n = bodies.len();
    let mut i: usize = 0;
    while i < n
        invariant
            n == bodies@.len() == old(bodies)@.len(),
            i <= n,
            all_wf(old(bodies)@),
            all_wf(fixed@),
            0 <= gravity <= GRAVITY_LIMIT,
            1 <= dt <= DT_LIMIT,
            all_wf(bodies@),
            forall|k: int| 0 <= k < i ==> #[trigger] bodies@[k] == old(bodies)@[k].verlet_spec(
                dt as int,
                acceleration_of(old(bodies)@[k], k, fixed@, gravity as int, excluded),
            ),
            forall|k: int| i <= k < n ==> #[trigger] bodies@[k] == old(bodies)@[k],
        decreases n - i,
    {
        let mut b = bodies[i];
        let skip = match excluded {
            Some(e) => e == i,
            None => false,
        };
        let acc = if skip { IVec2 { x: 0, y: 0 } } else { total_gravity(&b, fixed, gravity) };
        b.update_verlet(dt, acc);
        bodies.set(i, b);
        i = i + 1;
    }
    assert(bodies@ =~= integrated(old(bodies)@, fixed@, gravity as int, dt as int, excluded));
}

/// Whether `x` is among the first `v.len()` items of `v`.
fn contains_index(v: &Vec<usize>, x: usize) -> (r: bool)
    ensures
        r == v@.contains(x),
{
    let mut i: usize = 0;
    while i < v.len()
        invariant
            i <= v@.len(),
            forall|k: int| 0 <= k < i ==> v@[k] != x,
        decreases v@.len() - i,
    {
        if v[i] == x {
            assert(v@[i as int] == x);
            return true;
        }
        i = i + 1;
    }
    false
}

/// `a` and `b` became `a2` and `b2` as `collide_with` makes them.
pub open spec fn pair_resolved(a: Ball, b: Ball, a2: Ball, b2: Ball, dt: int, heat: Ratio) -> bool {
    if a.approaching(b) {
        a2 == a.with_velocity(a.collision_velocity(b, heat), dt) && b2 == b.with_velocity(b.collision_velocity(a, heat), dt)
    } else {
        a2 == a && b2 == b
    }
}

/// `after` is `before` with at most its velocity and previous position changed.
pub open spec fn keeps_place(before: Ball, after: Ball) -> bool {
    &&& after.position == before.position
    &&& after.radius == before.radius
    &&& after.mass == before.mass
    &&& after.color == before.color
    &&& after.playing_field == before.playing_field
}

/// No index occurs twice in `s`.
pub open spec fn distinct(s: Seq<usize>) -> bool {
    forall|a: int, b: int| 0 <= a < b < s.len() ==> s[a] != s[b]
}

/// What `resolve_collisions` owes: `collided` lists pairs of indices, each
/// body in at most one pair; the two bodies of a pair overlapped and were
/// resolved with each other; every other body is untouched.
pub open spec fn collisions_resolved(
    before: Seq<Ball>,
    after: Seq<Ball>,
    collided: Seq<usize>,
    dt: int,
    heat: Ratio,
) -> bool {
    &&& after.len() == before.len()
    &&& collided.len() % 2 == 0
    &&& distinct(collided)
    &&& forall|k: int| 0 <= k < collided.len() ==> (#[trigger] collided[k]) < before.len()
    &&& forall|i: int| 0 <= i < before.len() && !collided.contains(i as usize) ==> #[trigger] after[i] == before[i]
    &&& forall|i: int| 0 <= i < before.len() ==> keeps_place(before[i], #[trigger] after[i])
    &&& forall|p: int| 0 <= p < collided.len() / 2 ==> {
        &&& before[collided[2 * p] as int].overlaps(before[#[trigger] collided[2 * p + 1] as int])
        &&& pair_resolved(
            before[collided[2 * p] as int],
            before[collided[2 * p + 1] as int],
            after[collided[2 * p] as int],
            after[collided[2 * p + 1] as int],
            dt,
            heat,
        )
    }
}


/// The pair of `a` and `b` is resolved into `a2` and `b2` and appended to a
/// record of collisions that holds neither.
proof fn lemma_record_pair(
    before: Seq<Ball>,
    cur: Seq<Ball>,
    c: Seq<usize>,
    i: usize,
    o: usize,
    a2: Ball,
    b2: Ball,
    dt: int,
    heat: Ratio,
)
    requires
        collisions_resolved(before, cur, c, dt, heat),
        i < before.len(),
        o < before.len(),
        i != o,
        !c.contains(i),
        !c.contains(o),
        before[i as int].overlaps(before[o as int]),
        pair_resolved(before[i as int], before[o as int], a2, b2, dt, heat),
    ensures
        collisions_resolved(before, cur.update(i as int, a2).update(o as int, b2), c.push(i).push(o), dt, heat),
{
    let after = cur.update(i as int, a2).update(o as int, b2);
    let c2 = c.push(i).push(o);
    assert(cur[i as int] == before[i as int]);
    assert(cur[o as int] == before[o as int]);
    assert(c2[c.len() as int] == i);
    assert(c2[c.len() as int + 1] == o);
    assert forall|k: int| 0 <= k < c.len() implies c2[k] == c[k] && c[k] != i && c[k] != o by {
        if c[k] == i {
            assert(c.contains(i));
        }
        if c[k] == o {
            assert(c.contains(o));
        }
    }
    assert forall|x: int, y: int| 0 <= x < y < c2.len() implies c2[x] != c2[y] by {
        if y < c.len() {
        } else if y == c.len() {
            assert(c2[x] == c[x]);
        } else if x < c.len() {
            assert(c2[x] == c[x]);
        }
    }
    assert forall|k: int| 0 <= k < c2.len() implies (#[trigger] c2[k]) < before.len() by {
        if k < c.len() {
            assert(c2[k] == c[k]);
        }
    }
    assert forall|x: int| 0 <= x < before.len() && !c2.contains(x as usize) implies #[trigger] after[x] == before[x] by {
        assert(x != i) by {
            if x == i {
                assert(c2[c.len() as int] == x);
            }
        }
        assert(x != o) by {
            if x == o {
                assert(c2[c.len() as int + 1] == x);
            }
        }
        if c.contains(x as usize) {
            let k = choose|k: int| 0 <= k < c.len() && c[k] == x as usize;
            assert(c2[k] == x as usize);
        }
    }
    assert forall|x: int| 0 <= x < before.len() implies keeps_place(before[x], #[trigger] after[x]) by {
        if x != i && x != o {
            assert(after[x] == cur[x]);
        }
    }
    assert forall|p: int| 0 <= p < c2.len() / 2 implies {
        &&& before[c2[2 * p] as int].overlaps(before[#[trigger] c2[2 * p + 1] as int])
        &&& pair_resolved(
            before[c2[2 * p] as int],
            before[c2[2 * p + 1] as int],
            after[c2[2 * p] as int],
            after[c2[2 * p + 1] as int],
            dt,
            heat,
        )
    } by {
        if p < c.len() / 2 {
            assert(c2[2 * p] == c[2 * p]);
            assert(c2[2 * p + 1] == c[2 * p + 1]);
            assert(before[c[2 * p] as int].overlaps(before[c[2 * p + 1] as int]));
            assert(c[2 * p] != i && c[2 * p] != o);
            assert(c[2 * p + 1] != i && c[2 * p + 1] != o);
            assert(after[c[2 * p] as int] == cur[c[2 * p] as int]);
            assert(after[c[2 * p + 1] as int] == cur[c[2 * p + 1] as int]);
        } else {
            assert(2 * p == c.len());
        }
    }
}

/// Whether the entry `e` of the index lies in the collision area of body `i`
/// of `bodies` and names another body that overlaps it.
pub open spec fn neighbour_touching(bodies: Seq<Ball>, i: int, e: QuadTreeEntry) -> bool {
    &&& 0 <= i < bodies.len()
    &&& e.payload < bodies.len()
    &&& e.payload != i
    &&& bodies[i].collision_area().contains_spec(e.position)
    &&& bodies[i].overlaps(bodies[e.payload as int])
}

/// Looks for neighbours of each body in `tree` and resolves the first one
/// that overlaps it; a body that has collided in this call takes part in no
/// other collision. Returns the pairs that collided, two indices each. No
/// overlap that the index shows is left alone: of two bodies that it finds
/// touching, at least one has collided.
pub fn resolve_collisions(bodies: &mut Vec<Ball>, tree: &QuadTree, dt: i64, heat: Ratio) -> (collided: Vec<usize>)
    requires
        all_wf(old(bodies)@),
        tree.wf(),
        1 <= dt <= DT_LIMIT,
        heat.wf(),
    ensures
        all_wf(final(bodies)@),
        collisions_resolved(old(bodies)@, final(bodies)@, collided@, dt as int, heat),
        forall|i: int, e: QuadTreeEntry| tree.entry_set().contains(e) && #[trigger] neighbour_touching(old(bodies)@, i, e)
            ==> collided@.contains(i as usize) || collided@.contains(e.payload),
{
    let n = bodies.len();
    let mut collided: Vec<usize> = Vec::new();
    proof {
        assert(collided@.len() == 0);
        assert forall|i: int| 0 <= i < n && !collided@.contains(i as usize) implies #[trigger] bodies@[i] == old(bodies)@[i] by {}
    }
    let mut index: usize = 0;
    while index < n
        invariant
            n == bodies@.len() == old(bodies)@.len(),
            index <= n,
            tree.wf(),
            1 <= dt <= DT_LIMIT,
            heat.wf(),
            all_wf(old(bodies)@),
            all_wf(bodies@),
            collisions_resolved(old(bodies)@, bodies@, collided@, dt as int, heat),
            forall|i: int, e: QuadTreeEntry| i < index && tree.entry_set().contains(e)
                && #[trigger] neighbour_touching(old(bodies)@, i, e)
                ==> collided@.contains(i as usize) || collided@.contains(e.payload),
        decreases n - index,
    {
        if !contains_index(&collided, index) {
            let zone = bodies[index].get_collision_area();
            let mut near: Vec<QuadTreeEntry> = Vec::new();
            tree.query_entries(&zone, &mut near);
            assert(near@.subrange(0, near@.len() as int) =~= near@);
            assert(keeps_place(old(bodies)@[index as int], bodies@[index as int]));
            let mut done = false;
            let mut j: usize = 0;
            while j < near.len() && !done
                invariant
                    n == bodies@.len() == old(bodies)@.len(),
                    index < n,
                    j <= near@.len(),
                    1 <= dt <= DT_LIMIT,
                    heat.wf(),
                    all_wf(old(bodies)@),
                    all_wf(bodies@),
                    collisions_resolved(old(bodies)@, bodies@, collided@, dt as int, heat),
                    !done ==> !collided@.contains(index),
                    done ==> collided@.contains(index),
                    forall|i: int, e: QuadTreeEntry| i < index && tree.entry_set().contains(e)
                        && #[trigger] neighbour_touching(old(bodies)@, i, e)
                        ==> collided@.contains(i as usize) || collided@.contains(e.payload),
                    !done ==> forall|q: int| 0 <= q < j && #[trigger] neighbour_touching(old(bodies)@, index as int, near@[q])
                        ==> collided@.contains(near@[q].payload),
                decreases near@.len() - j,
            {
                let other = near[j].payload;
                if other != index && other < n && !contains_index(&collided, other) {
                    let mut a = bodies[index];
                    let mut b = bodies[other];
                    proof {
                        assert(keeps_place(old(bodies)@[index as int], bodies@[index as int]));
                        assert(keeps_place(old(bodies)@[other as int], bodies@[other as int]));
                    }
                    if a.check_collision(&b) {
                        let ghost cur = bodies@;
                        let ghost c = collided@;
                        proof {
                            assert(cur[index as int] == old(bodies)@[index as int]);
                            assert(cur[other as int] == old(bodies)@[other as int]);
                        }
                        a.collide_with(&mut b, dt, heat);
                        bodies.set(index, a);
                        bodies.set(other, b);
                        collided.push(index);
                        collided.push(other);
                        proof {
                            lemma_record_pair(old(bodies)@, cur, c, index, other, a, b, dt as int, heat);
                            lemma_push_keeps(c, index);
                            lemma_push_keeps(c.push(index), other);
                        }
                        done = true;
                    }
                }
                j = j + 1;
            }
            proof {
                if !done {
                    assert forall|i: int, e: QuadTreeEntry| i < index + 1 && tree.entry_set().contains(e)
                        && #[trigger] neighbour_touching(old(bodies)@, i, e)
                        implies collided@.contains(i as usize) || collided@.contains(e.payload) by {
                        if i == index {
                            assert(near@.contains(e));
                            let q = choose|q: int| 0 <= q < near@.len() && near@[q] == e;
                            assert(neighbour_touching(old(bodies)@, index as int, near@[q]));
                        }
                    }
                }
            }
        }
        index = index + 1;
    }
    collided
}


/// What happens to a body that runs into a fixed body.
#[derive(Clone, Copy, Debug, PartialEq, Eq, Structural)]
pub enum FixedContact {
    /// It is reflected off the fixed body's surface, losing some speed.
    Bounce,
    /// It is marked for removal.
    Absorb,
}

/// Whether `ball` moves toward the center of `body`.
pub open spec fn moving_toward(ball: Ball, body: Ball) -> bool {
    (ball.position.x - body.position.x) * ball.velocity.x + (ball.position.y - body.position.y) * ball.velocity.y < 0
}

/// `ball` put back on the surface of `body` along the line of centers, with
/// its velocity reflected about that line and scaled by `restitution`.
pub open spec fn bounced(ball: Ball, body: Ball, restitution: Ratio, dt: int) -> Ball {
    let dx = ball.position.x - body.position.x;
    let dy = ball.position.y - body.position.y;
    let d2 = dx * dx + dy * dy;
    let dist = sqrt_spec(d2);
    let rs = body.radius + ball.radius;
    let dv = dx * ball.velocity.x + dy * ball.velocity.y;
    let px = clamp_spec(body.position.x + round_div_spec(dx * rs, dist), COORD_LIMIT as int);
    let py = clamp_spec(body.position.y + round_div_spec(dy * rs, dist), COORD_LIMIT as int);
    let den = d2 * restitution.den;
    let vx = clamp_spec(round_div_spec((ball.velocity.x * d2 - 2 * dv * dx) * restitution.num, den), SPEED_LIMIT as int);
    let vy = clamp_spec(round_div_spec((ball.velocity.y * d2 - 2 * dv * dy) * restitution.num, den), SPEED_LIMIT as int);
    Ball { position: IVec2 { x: px as i64, y: py as i64 }, ..ball }.with_velocity(IVec2 { x: vx as i64, y: vy as i64 }, dt)
}

/// Bounces `ball` off `body` if it is moving toward it.
pub fn bounce_off(ball: &mut Ball, body: &Ball, restitution: Ratio, dt: i64)
    requires
        old(ball).wf(),
        body.wf(),
        restitution.wf(),
        1 <= dt <= DT_LIMIT,
    ensures
        final(ball).wf(),
        *final(ball) == if moving_toward(*old(ball), *body) {
            bounced(*old(ball), *body, restitution, dt as int)
        } else {
            *old(ball)
        },
{
    let dx: i128 = ball.position.x as i128 - body.position.x as i128;
    let dy: i128 = ball.position.y as i128 - body.position.y as i128;
    let vx: i128 = ball.velocity.x as i128;
    let vy: i128 = ball.velocity.y as i128;
    proof {
        lemma_mul_bound(dx as int, vx as int, 0x1_0000_0000, 0x10_0000);
        lemma_mul_bound(dy as int, vy as int, 0x1_0000_0000, 0x10_0000);
    }
    let dv: i128 = dx * vx + dy * vy;
    if dv >= 0 {
        return;
    }
    proof {
        assert(dx != 0 || dy != 0);
        lemma_square_bound(dx as int, 0x1_0000_0000);
        lemma_square_bound(dy as int, 0x1_0000_0000);
        assert(dx * dx + dy * dy > 0) by (nonlinear_arith)
            requires dx != 0 || dy != 0;
    }
    let d2: i128 = dx * dx + dy * dy;
    let dist: u128 = isqrt(d2 as u128);
    proof {
        assert(dist <= 0x4_0000_0000) by (nonlinear_arith)
            requires dist * dist <= d2, d2 <= 0x2_0000_0000_0000_0000, 0 <= dist;
        assert(dist >= 1) by (nonlinear_arith)
            requires d2 < (dist + 1) * (dist + 1), d2 >= 1, 0 <= dist;
    }
    let rs: i128 = (body.radius + ball.radius) as i128;
    proof {
        lemma_mul_bound(dx as int, rs as int, 0x1_0000_0000, 0x4000_0000);
        lemma_mul_bound(dy as int, rs as int, 0x1_0000_0000, 0x4000_0000);
    }
    let ox: i128 = round_div(dx * rs, dist as i128);
    let oy: i128 = round_div(dy * rs, dist as i128);
    proof {
        lemma_round_div_bound(dx * rs, dist as int, 0x4000_0000_0000_0000int);
        lemma_round_div_bound(dy * rs, dist as int, 0x4000_0000_0000_0000int);
        lemma_mul_bound(vx as int, d2 as int, 0x10_0000, 0x2_0000_0000_0000_0000);
        lemma_mul_bound(vy as int, d2 as int, 0x10_0000, 0x2_0000_0000_0000_0000);
        lemma_mul_bound(dv as int, dx as int, 0x20_0000_0000_0000, 0x1_0000_0000);
        lemma_mul_bound(dv as int, dy as int, 0x20_0000_0000_0000, 0x1_0000_0000);
    }
    let rx: i128 = vx * d2 - 2 * (dv * dx);
    let ry: i128 = vy * d2 - 2 * (dv * dy);
    proof {
        lemma_mul_bound(rx as int, restitution.num as int, 0x100_0000_0000_0000_0000_0000, 0x400);
        lemma_mul_bound(ry as int, restitution.num as int, 0x100_0000_0000_0000_0000_0000, 0x400);
        lemma_mul_bound(d2 as int, restitution.den as int, 0x2_0000_0000_0000_0000, 0x400);
        assert(d2 * restitution.den >= 1) by (nonlinear_arith)
            requires d2 >= 1, restitution.den >= 1;
        assert(2 * dv * dx == 2 * (dv * dx)) by (nonlinear_arith);
        assert(2 * dv * dy == 2 * (dv * dy)) by (nonlinear_arith);
    }
    let den: i128 = d2 * restitution.den as i128;
    let nv = IVec2 {
        x: clamp(round_div(rx * restitution.num as i128, den), SPEED_LIMIT),
        y: clamp(round_div(ry * restitution.num as i128, den), SPEED_LIMIT),
    };
    ball.position = IVec2 {
        x: clamp(body.position.x as i128 + ox, COORD_LIMIT),
        y: clamp(body.position.y as i128 + oy, COORD_LIMIT),
    };
    ball.set_velocity(nv, dt);
}

/// Rounding a quotient by a positive divisor keeps it within the bound of
/// the dividend.
proof fn lemma_round_div_bound(a: int, d: int, x: int)
    requires
        d >= 1,
        -x <= a <= x,
    ensures
        -x <= round_div_spec(a, d) <= x,
{
    let n = 2 * a + d;
    let m = 2 * d;
    let q = n / m;
    vstd::arithmetic::div_mod::lemma_fundamental_div_mod(n, m);
    let r = n % m;
    assert(0 <= r < m);
    assert(n == m * q + r);
    assert(-x <= q <= x) by (nonlinear_arith)
        requires n == m * q + r, 0 <= r < m, m == 2 * d, d >= 1, n == 2 * a + d, -x <= a <= x;
}


proof fn lemma_push_keeps(s: Seq<usize>, y: usize)
    ensures
        forall|x: usize| s.contains(x) ==> #[trigger] s.push(y).contains(x),
        forall|x: usize| #[trigger] s.push(y).contains(x) ==> s.contains(x) || x == y,
        s.push(y).contains(y),
{
    assert forall|x: usize| #[trigger] s.push(y).contains(x) implies s.contains(x) || x == y by {
        let i = choose|i: int| 0 <= i < s.len() + 1 && s.push(y)[i] == x;
        if i < s.len() {
            assert(s[i] == x);
        }
    }
    assert forall|x: usize| s.contains(x) implies #[trigger] s.push(y).contains(x) by {
        let i = choose|i: int| 0 <= i < s.len() && s[i] == x;
        assert(s.push(y)[i] == x);
    }
    assert(s.push(y)[s.len() as int] == y);
}

/// Whether `ball` overlaps one of `fixed`.
pub open spec fn touches_fixed(ball: Ball, fixed: Seq<Ball>) -> bool {
    exists|j: int| 0 <= j < fixed.len() && (#[trigger] fixed[j]).overlaps(ball)
}

/// Whether the entry `e` of the index names a body of `bodies` that lies in
/// the collision area of `body` and overlaps it.
pub open spec fn found_touching(e: QuadTreeEntry, body: Ball, bodies: Seq<Ball>) -> bool {
    &&& e.payload < bodies.len()
    &&& body.collision_area().contains_spec(e.position)
    &&& body.overlaps(bodies[e.payload as int])
}

/// Marks for removal every body that the index finds in the collision area
/// of a fixed body and that overlaps it; an index already in `marked` is not
/// added again.
pub fn absorb_fixed(bodies: &Vec<Ball>, fixed: &Vec<Ball>, tree: &QuadTree, marked: &mut Vec<usize>)
    requires
        all_wf(bodies@),
        all_wf(fixed@),
        tree.wf(),
    ensures
        old(marked)@.len() <= final(marked)@.len(),
        final(marked)@.subrange(0, old(marked)@.len() as int) == old(marked)@,
        forall|k: int| old(marked)@.len() <= k < final(marked)@.len() ==> {
            &&& (#[trigger] final(marked)@[k]) < bodies@.len()
            &&& touches_fixed(bodies@[final(marked)@[k] as int], fixed@)
        },
        distinct(old(marked)@) ==> distinct(final(marked)@),
        forall|j: int, e: QuadTreeEntry| 0 <= j < fixed@.len() && #[trigger] tree.entry_set().contains(e)
            && found_touching(e, #[trigger] fixed@[j], bodies@) ==> final(marked)@.contains(e.payload),
{
    let n = bodies.len();
    let ghost start = marked@.len();
    assert(marked@.subrange(0, start as int) =~= old(marked)@);
    let mut j: usize = 0;
    while j < fixed.len()
        invariant
            n == bodies@.len(),
            j <= fixed@.len(),
            all_wf(bodies@),
            all_wf(fixed@),
            tree.wf(),
            start == old(marked)@.len(),
            start <= marked@.len(),
            marked@.subrange(0, start as int) == old(marked)@,
            forall|k: int| start <= k < marked@.len() ==> {
                &&& (#[trigger] marked@[k]) < n
                &&& touches_fixed(bodies@[marked@[k] as int], fixed@)
            },
            distinct(old(marked)@) ==> distinct(marked@),
            forall|jj: int, e: QuadTreeEntry| 0 <= jj < j && #[trigger] tree.entry_set().contains(e)
                && found_touching(e, #[trigger] fixed@[jj], bodies@) ==> marked@.contains(e.payload),
        decreases fixed@.len() - j,
    {
        let area = fixed[j].get_collision_area();
        let mut near: Vec<QuadTreeEntry> = Vec::new();
        tree.query_entries(&area, &mut near);
        assert(near@.subrange(0, near@.len() as int) =~= near@);
        let mut k: usize = 0;
        while k < near.len()
            invariant
                n == bodies@.len(),
                j < fixed@.len(),
                k <= near@.len(),
                all_wf(bodies@),
                all_wf(fixed@),
                tree.wf(),
                area == fixed@[j as int].collision_area(),
                tree.reports(area, near@),
                start == old(marked)@.len(),
                start <= marked@.len(),
                marked@.subrange(0, start as int) == old(marked)@,
                forall|q: int| start <= q < marked@.len() ==> {
                    &&& (#[trigger] marked@[q]) < n
                    &&& touches_fixed(bodies@[marked@[q] as int], fixed@)
                },
                distinct(old(marked)@) ==> distinct(marked@),
                forall|jj: int, e: QuadTreeEntry| 0 <= jj < j && #[trigger] tree.entry_set().contains(e)
                    && found_touching(e, #[trigger] fixed@[jj], bodies@) ==> marked@.contains(e.payload),
                forall|q: int| 0 <= q < k && found_touching(#[trigger] near@[q], fixed@[j as int], bodies@)
                    ==> marked@.contains(near@[q].payload),
            decreases near@.len() - k,
        {
            let i = near[k].payload;
            if i < n && fixed[j].check_collision(&bodies[i]) && !contains_index(marked, i) {
                let ghost before = marked@;
                marked.push(i);
                proof {
                    lemma_push_keeps(before, i);
                    assert(marked@.subrange(0, start as int) =~= before.subrange(0, start as int));
                    assert(fixed@[j as int].overlaps(bodies@[i as int]));
                    assert(touches_fixed(bodies@[i as int], fixed@));
                    assert forall|q: int| start <= q < marked@.len() implies {
                        &&& (#[trigger] marked@[q]) < n
                        &&& touches_fixed(bodies@[marked@[q] as int], fixed@)
                    } by {
                        if q < before.len() {
                            assert(marked@[q] == before[q]);
                        }
                    }
                    if distinct(old(marked)@) {
                        assert forall|x: int, y: int| 0 <= x < y < marked@.len() implies marked@[x] != marked@[y] by {
                            if y == before.len() {
                                assert(marked@[x] == before[x]);
                                if before[x] == i {
                                    assert(before.contains(i));
                                }
                            } else {
                                assert(marked@[x] == before[x]);
                                assert(marked@[y] == before[y]);
                            }
                        }
                    }
                }
            } else {
                proof {
                    if i < n && fixed@[j as int].overlaps(bodies@[i as int]) {
                        assert(marked@.contains(i));
                    }
                }
            }
            k = k + 1;
        }
        proof {
            assert forall|jj: int, e: QuadTreeEntry| 0 <= jj < j + 1 && #[trigger] tree.entry_set().contains(e)
                && found_touching(e, #[trigger] fixed@[jj], bodies@) implies marked@.contains(e.payload) by {
                if jj == j {
                    assert(near@.contains(e));
                    let q = choose|q: int| 0 <= q < near@.len() && near@[q] == e;
                    assert(found_touching(near@[q], fixed@[j as int], bodies@));
                }
            }
        }
        j = j + 1;
    }
}

/// What `bounce_off` makes of `ball` against `body`.
pub open spec fn bounce_result(ball: Ball, body: Ball, restitution: Ratio, dt: int) -> Ball {
    if moving_toward(ball, body) {
        bounced(ball, body, restitution, dt)
    } else {
        ball
    }
}

/// Whether none of the first `j` of `fixed` overlaps `ball`.
pub open spec fn touches_none_before(ball: Ball, fixed: Seq<Ball>, j: int) -> bool {
    forall|k: int| 0 <= k < j ==> !(#[trigger] fixed[k]).overlaps(ball)
}

/// Whether no fixed body but the one at `j` overlaps `ball`.
pub open spec fn touches_only(ball: Ball, fixed: Seq<Ball>, j: int) -> bool {
    forall|k: int| 0 <= k < fixed.len() && k != j ==> !(#[trigger] fixed[k]).overlaps(ball)
}

/// Bounces off each fixed body, once, every body that the index finds in its
/// collision area and that overlaps it. Whether a body overlaps a fixed body is
/// judged on the bodies as they were when the call began. A body that touches
/// a single fixed body and that the index finds next to it ends as
/// `bounce_off` leaves it.
pub fn bounce_fixed(bodies: &mut Vec<Ball>, fixed: &Vec<Ball>, tree: &QuadTree, dt: i64, restitution: Ratio)
    requires
        all_wf(old(bodies)@),
        all_wf(fixed@),
        tree.wf(),
        1 <= dt <= DT_LIMIT,
        restitution.wf(),
    ensures
        final(bodies)@.len() == old(bodies)@.len(),
        all_wf(final(bodies)@),
        forall|i: int| 0 <= i < old(bodies)@.len() && !touches_fixed(old(bodies)@[i], fixed@)
            ==> #[trigger] final(bodies)@[i] == old(bodies)@[i],
        forall|i: int| 0 <= i < old(bodies)@.len() ==> {
            &&& (#[trigger] final(bodies)@[i]).radius == old(bodies)@[i].radius
            &&& final(bodies)@[i].mass == old(bodies)@[i].mass
            &&& final(bodies)@[i].color == old(bodies)@[i].color
            &&& final(bodies)@[i].playing_field == old(bodies)@[i].playing_field
        },
        forall|j: int, e: QuadTreeEntry| 0 <= j < fixed@.len() && tree.entry_set().contains(e)
            && #[trigger] found_touching(e, fixed@[j], old(bodies)@)
            && touches_only(old(bodies)@[e.payload as int], fixed@, j)
            ==> final(bodies)@[e.payload as int] == bounce_result(
                old(bodies)@[e.payload as int],
                fixed@[j],
                restitution,
                dt as int,
            ),
{
    let n = bodies.len();
    let mut before: Vec<Ball> = Vec::new();
    let mut i: usize = 0;
    while i < n
        invariant
            n == bodies@.len(),
            i <= n,
            before@ == bodies@.subrange(0, i as int),
        decreases n - i,
    {
        before.push(bodies[i]);
        assert(bodies@.subrange(0, i + 1) =~= bodies@.subrange(0, i as int).push(bodies@[i as int]));
        i = i + 1;
    }
    assert(bodies@.subrange(0, n as int) =~= bodies@);
    let mut j: usize = 0;
    while j < fixed.len()
        invariant
            n == bodies@.len() == old(bodies)@.len(),
            before@ == old(bodies)@,
            j <= fixed@.len(),
            all_wf(old(bodies)@),
            all_wf(bodies@),
            all_wf(fixed@),
            tree.wf(),
            1 <= dt <= DT_LIMIT,
            restitution.wf(),
            forall|i: int| 0 <= i < n ==> {
                &&& (#[trigger] bodies@[i]).radius == old(bodies)@[i].radius
                &&& bodies@[i].mass == old(bodies)@[i].mass
                &&& bodies@[i].color == old(bodies)@[i].color
                &&& bodies@[i].playing_field == old(bodies)@[i].playing_field
            },
            forall|p: int| 0 <= p < n && touches_none_before(old(bodies)@[p], fixed@, j as int)
                ==> #[trigger] bodies@[p] == old(bodies)@[p],
            forall|jj: int, e: QuadTreeEntry| 0 <= jj < j && tree.entry_set().contains(e)
                && #[trigger] found_touching(e, fixed@[jj], old(bodies)@)
                && touches_only(old(bodies)@[e.payload as int], fixed@, jj)
                ==> bodies@[e.payload as int] == bounce_result(old(bodies)@[e.payload as int], fixed@[jj], restitution, dt as int),
        decreases fixed@.len() - j,
    {
        let ghost start = bodies@;
        let area = fixed[j].get_collision_area();
        let mut near: Vec<QuadTreeEntry> = Vec::new();
        tree.query_entries(&area, &mut near);
        assert(near@.subrange(0, near@.len() as int) =~= near@);
        let mut seen: Vec<usize> = Vec::new();
        let mut k: usize = 0;
        while k < near.len()
            invariant
                n == bodies@.len() == old(bodies)@.len(),
                before@ == old(bodies)@,
                j < fixed@.len(),
                k <= near@.len(),
                all_wf(old(bodies)@),
                all_wf(bodies@),
                all_wf(fixed@),
                1 <= dt <= DT_LIMIT,
                restitution.wf(),
                area == fixed@[j as int].collision_area(),
                tree.reports(area, near@),
                forall|i: int| 0 <= i < n ==> {
                    &&& (#[trigger] bodies@[i]).radius == old(bodies)@[i].radius
                    &&& bodies@[i].mass == old(bodies)@[i].mass
                    &&& bodies@[i].color == old(bodies)@[i].color
                    &&& bodies@[i].playing_field == old(bodies)@[i].playing_field
                },
                forall|p: int| 0 <= p < n && !fixed@[j as int].overlaps(old(bodies)@[p]) ==> #[trigger] bodies@[p] == start[p],
                forall|p: int| 0 <= p < n && touches_none_before(old(bodies)@[p], fixed@, j as int) ==> #[trigger] bodies@[p] == if seen@.contains(p as usize) {
                    bounce_result(old(bodies)@[p], fixed@[j as int], restitution, dt as int)
                } else {
                    old(bodies)@[p]
                },
                forall|q: int| 0 <= q < k && #[trigger] found_touching(near@[q], fixed@[j as int], old(bodies)@)
                    ==> seen@.contains(near@[q].payload),
            decreases near@.len() - k,
        {
            let i = near[k].payload;
            if i < n && !contains_index(&seen, i) && fixed[j].check_collision(&before[i]) {
                let ghost prev = bodies@;
                let ghost prev_seen = seen@;
                let mut b = bodies[i];
                proof {
                    if touches_none_before(old(bodies)@[i as int], fixed@, j as int) {
                        assert(bodies@[i as int] == old(bodies)@[i as int]);
                    }
                }
                bounce_off(&mut b, &fixed[j], restitution, dt);
                bodies.set(i, b);
                seen.push(i);
                proof {
                    lemma_push_keeps(prev_seen, i);
                    assert forall|p: int| 0 <= p < n && touches_none_before(old(bodies)@[p], fixed@, j as int)
                        implies #[trigger] bodies@[p] == if seen@.contains(p as usize) {
                        bounce_result(old(bodies)@[p], fixed@[j as int], restitution, dt as int)
                    } else {
                        old(bodies)@[p]
                    } by {
                        if p != i {
                            assert(bodies@[p] == prev[p]);
                            assert(seen@.contains(p as usize) == prev_seen.contains(p as usize));
                        }
                    }
                }
            } else {
                proof {
                    if i < n && fixed@[j as int].overlaps(old(bodies)@[i as int]) {
                        assert(seen@.contains(i));
                    }
                }
            }
            k = k + 1;
        }
        proof {
            assert forall|jj: int, e: QuadTreeEntry| 0 <= jj < j + 1 && tree.entry_set().contains(e)
                && #[trigger] found_touching(e, fixed@[jj], old(bodies)@)
                && touches_only(old(bodies)@[e.payload as int], fixed@, jj)
                implies bodies@[e.payload as int] == bounce_result(old(bodies)@[e.payload as int], fixed@[jj], restitution, dt as int) by {
                let p = e.payload as int;
                if jj == j {
                    assert(near@.contains(e));
                    let q = choose|q: int| 0 <= q < near@.len() && near@[q] == e;
                    assert(found_touching(near@[q], fixed@[j as int], old(bodies)@));
                    assert(touches_none_before(old(bodies)@[p], fixed@, j as int));
                } else {
                    assert(!fixed@[j as int].overlaps(old(bodies)@[p]));
                    assert(bodies@[p] == start[p]);
                }
            }
            assert forall|p: int| 0 <= p < n && touches_none_before(old(bodies)@[p], fixed@, j + 1)
                implies #[trigger] bodies@[p] == old(bodies)@[p] by {
                assert(!fixed@[j as int].overlaps(old(bodies)@[p]));
                assert(touches_none_before(old(bodies)@[p], fixed@, j as int));
                assert(bodies@[p] == start[p]);
            }
        }
        j = j + 1;
    }
    proof {
        assert forall|i: int| 0 <= i < n && !touches_fixed(old(bodies)@[i], fixed@) implies #[trigger] bodies@[i] == old(bodies)@[i] by {
            assert(touches_none_before(old(bodies)@[i], fixed@, fixed@.len() as int));
        }
    }
}

/// The entry that the index of a step holds for body `k` at the start of the
/// step.
pub open spec fn index_entry(b: Ball, k: int) -> QuadTreeEntry {
    QuadTreeEntry { position: b.position, payload: k as usize }
}

/// The settings of a simulation step.
#[derive(Clone, Copy, Debug)]
pub struct SimConfig {
    /// The region that the spatial index covers; bodies outside it take part
    /// in no collision.
    pub tree_area: Rect,
    pub dt: i64,
    /// The gravitational constant.
    pub gravity: i64,
    /// The share of tangential velocity that a collision between bodies keeps.
    pub heat: Ratio,
    /// The share of speed that a bounce off a fixed body keeps.
    pub restitution: Ratio,
    pub contact: FixedContact,
}

impl SimConfig {
    pub open spec fn wf(self) -> bool {
        &&& self.tree_area.wf()
        &&& 1 <= self.dt <= DT_LIMIT
        &&& 0 <= self.gravity <= GRAVITY_LIMIT
        &&& self.heat.wf()
        &&& self.restitution.wf()
    }
}

/// One physics sub-step. The index is rebuilt from the positions at the start
/// of the sub-step; then every body moves under the pull of the fixed bodies
/// (but the one at `excluded`), bodies that the index finds near each other
/// collide, and bodies that touch a fixed body bounce off it or, under
/// `FixedContact::Absorb`, are added to `marked`. Bodies are not removed here.
pub fn step(
    bodies: &mut Vec<Ball>,
    fixed: &Vec<Ball>,
    config: &SimConfig,
    excluded: Option<usize>,
    marked: &mut Vec<usize>,
)
    requires
        all_wf(old(bodies)@),
        all_wf(fixed@),
        config.wf(),
    ensures
        final(bodies)@.len() == old(bodies)@.len(),
        all_wf(final(bodies)@),
        forall|i: int| 0 <= i < old(bodies)@.len() ==> {
            &&& (#[trigger] final(bodies)@[i]).radius == old(bodies)@[i].radius
            &&& final(bodies)@[i].mass == old(bodies)@[i].mass
            &&& final(bodies)@[i].color == old(bodies)@[i].color
            &&& final(bodies)@[i].playing_field == old(bodies)@[i].playing_field
        },
        exists|c: Seq<usize>, mid: Seq<Ball>| #![trigger collisions_resolved(integrated(old(bodies)@, fixed@, config.gravity as int, config.dt as int, excluded), mid, c, config.dt as int, config.heat)] {
            &&& collisions_resolved(
                integrated(old(bodies)@, fixed@, config.gravity as int, config.dt as int, excluded),
                mid,
                c,
                config.dt as int,
                config.heat,
            )
            &&& forall|i: int, k: int| 0 <= k < old(bodies)@.len()
                && config.tree_area.contains_spec(old(bodies)@[k].position)
                && #[trigger] neighbour_touching(
                    integrated(old(bodies)@, fixed@, config.gravity as int, config.dt as int, excluded),
                    i,
                    index_entry(old(bodies)@[k], k),
                ) ==> c.contains(i as usize) || c.contains(k as usize)
            &&& config.contact == FixedContact::Absorb ==> final(bodies)@ == mid
            &&& config.contact == FixedContact::Bounce ==> forall|i: int| 0 <= i < mid.len() && !touches_fixed(mid[i], fixed@)
                ==> #[trigger] final(bodies)@[i] == mid[i]
            &&& config.contact == FixedContact::Bounce ==> forall|i: int, j: int| 0 <= i < mid.len() && 0 <= j < fixed@.len()
                && config.tree_area.contains_spec(old(bodies)@[i].position)
                && fixed@[j].collision_area().contains_spec(old(bodies)@[i].position)
                && #[trigger] fixed@[j].overlaps(mid[i])
                && touches_only(mid[i], fixed@, j)
                ==> final(bodies)@[i] == bounce_result(mid[i], fixed@[j], config.restitution, config.dt as int)
        },
        config.contact == FixedContact::Bounce ==> final(marked)@ == old(marked)@,
        config.contact == FixedContact::Absorb ==> {
            &&& old(marked)@.len() <= final(marked)@.len()
            &&& final(marked)@.subrange(0, old(marked)@.len() as int) == old(marked)@
            &&& forall|k: int| old(marked)@.len() <= k < final(marked)@.len() ==> {
                &&& (#[trigger] final(marked)@[k]) < final(bodies)@.len()
                &&& touches_fixed(final(bodies)@[final(marked)@[k] as int], fixed@)
            }
            &&& distinct(old(marked)@) ==> distinct(final(marked)@)
            &&& forall|i: int, j: int| 0 <= i < old(bodies)@.len() && 0 <= j < fixed@.len()
                && config.tree_area.contains_spec(old(bodies)@[i].position)
                && (#[trigger] fixed@[j]).collision_area().contains_spec(old(bodies)@[i].position)
                && fixed@[j].overlaps(#[trigger] final(bodies)@[i]) ==> final(marked)@.contains(i as usize)
        },
{
    let n = bodies.len();
    let mut entries: Vec<QuadTreeEntry> = Vec::new();
    let mut i: usize = 0;
    while i < n
        invariant
            n == bodies@.len(),
            i <= n,
            all_wf(bodies@),
            entries@.len() == i,
            bodies@ == old(bodies)@,
            forall|k: int| 0 <= k < i ==> #[trigger] entries@[k] == index_entry(bodies@[k], k),
        decreases n - i,
    {
        entries.push(QuadTreeEntry::new(bodies[i].position, i));
        i = i + 1;
    }
    let tree = QuadTree::from_entries(config.tree_area, &entries);
    integrate(bodies, fixed, config.gravity, config.dt, excluded);
    let ghost integrated = bodies@;
    let collided = resolve_collisions(bodies, &tree, config.dt, config.heat);
    let ghost collided_state = bodies@;
    proof {
        assert forall|i: int| 0 <= i < n implies #[trigger] collided_state[i].radius == old(bodies)@[i].radius
            && collided_state[i].mass == old(bodies)@[i].mass && collided_state[i].color == old(bodies)@[i].color
            && collided_state[i].playing_field == old(bodies)@[i].playing_field by {
            assert(keeps_place(integrated[i], collided_state[i]));
        }
        assert forall|i: int, k: int| 0 <= k < old(bodies)@.len()
            && config.tree_area.contains_spec(old(bodies)@[k].position)
            && #[trigger] neighbour_touching(integrated, i, index_entry(old(bodies)@[k], k))
            implies collided@.contains(i as usize) || collided@.contains(k as usize) by {
            let e = entries@[k];
            assert(entries@.contains(e));
            assert(tree.entry_set().contains(e));
        }
    }
    match config.contact {
        FixedContact::Bounce => {
            bounce_fixed(bodies, fixed, &tree, config.dt, config.restitution);
            proof {
                assert forall|i: int, j: int| 0 <= i < collided_state.len() && 0 <= j < fixed@.len()
                    && config.tree_area.contains_spec(old(bodies)@[i].position)
                    && fixed@[j].collision_area().contains_spec(old(bodies)@[i].position)
                    && #[trigger] fixed@[j].overlaps(collided_state[i])
                    && touches_only(collided_state[i], fixed@, j)
                    implies bodies@[i] == bounce_result(collided_state[i], fixed@[j], config.restitution, config.dt as int) by {
                    let e = entries@[i];
                    assert(entries@.contains(e));
                    assert(tree.entry_set().contains(e));
                    assert(found_touching(e, fixed@[j], collided_state));
                }
            }
        },
        FixedContact::Absorb => {
            absorb_fixed(bodies, fixed, &tree, marked);
            proof {
                assert forall|i: int, j: int| 0 <= i < old(bodies)@.len() && 0 <= j < fixed@.len()
                    && config.tree_area.contains_spec(old(bodies)@[i].position)
                    && (#[trigger] fixed@[j]).collision_area().contains_spec(old(bodies)@[i].position)
                    && fixed@[j].overlaps(#[trigger] bodies@[i]) implies marked@.contains(i as usize) by {
                    let e = entries@[i];
                    assert(entries@.contains(e));
                    assert(tree.entry_set().contains(e));
                    assert(found_touching(e, fixed@[j], bodies@));
                }
            }
        },
    }
    assert(collisions_resolved(integrated, collided_state, collided@, config.dt as int, config.heat));
}

/// The bodies of `s` among the first `n` whose index is not in `marked`, in
/// their order.
pub open spec fn kept(s: Seq<Ball>, marked: Seq<usize>, n: int) -> Seq<Ball>
    decreases n,
{
    if n <= 0 {
        Seq::empty()
    } else if marked.contains((n - 1) as usize) {
        kept(s, marked, n - 1)
    } else {
        kept(s, marked, n - 1).push(s[n - 1])
    }
}

/// Removes the bodies whose index is in `marked`; the others keep their order
/// and move down over the gaps.
pub fn remove_marked(bodies: &mut Vec<Ball>, marked: &Vec<usize>)
    ensures
        final(bodies)@ == kept(old(bodies)@, marked@, old(bodies)@.len() as int),
{
    let n = bodies.len();
    let mut rest: Vec<Ball> = Vec::new();
    let mut i: usize = 0;
    while i < n
        invariant
            n == bodies@.len() == old(bodies)@.len(),
            i <= n,
            bodies@ == old(bodies)@,
            rest@ == kept(old(bodies)@, marked@, i as int),
        decreases n - i,
    {
        if !contains_index(marked, i) {
            rest.push(bodies[i]);
        }
        i = i + 1;
    }
    *bodies = rest;
}

} // verus!
