//! The circular bodies of the simulation and the one-step physics of a
//! single body: Euler integration, wall bounces, and the split decision.

use vstd::prelude::*;

verus! {

/// Number of fixed-point units per pixel: all coordinates, velocities and
/// radii are carried in milli-pixels.
pub const SCALE: i64 = 1000;

/// Smallest radius a body may have: 1.0 pixel, in milli-pixels.
pub const MIN_RADIUS: i64 = 1000;

/// Largest arena width or height the simulation supports, in milli-pixels.
pub const MAX_DIM: i64 = 100_000_000;

/// Velocity components saturate at this magnitude, in milli-pixels per step.
pub const MAX_SPEED: i64 = 1_000_000_000_000;

/// Largest packed 24-bit RGB value.
pub const MAX_COLOR: u32 = 0xFF_FFFF;

/// A simulated circular body.  Positions, velocities and the radius are in
/// milli-pixels; `color` is a packed 24-bit RGB value; `just_split` is true
/// for exactly the one step that follows the body's creation by a split, or
/// its own split, and blocks a further split during that step.
#[derive(Clone, Copy, Debug, PartialEq, Eq, Structural)]
pub struct Ball {
    pub x: i64,
    pub y: i64,
    pub vx: i64,
    pub vy: i64,
    pub radius: i64,
    pub color: u32,
    pub just_split: bool,
}

/// The mathematical model of a [`Ball`]: the same fields over unbounded
/// integers.
#[verifier::ext_equal]
pub ghost struct BallModel {
    pub x: int,
    pub y: int,
    pub vx: int,
    pub vy: int,
    pub radius: int,
    pub color: int,
    pub just_split: bool,
}

impl View for Ball {
    type V = BallModel;

    open spec fn view(&self) -> BallModel {
        BallModel {
            x: self.x as int,
            y: self.y as int,
            vx: self.vx as int,
            vy: self.vy as int,
            radius: self.radius as int,
            color: self.color as int,
            just_split: self.just_split,
        }
    }
}

/// A well-formed body in an arena of the given width and height: the radius
/// is at least one pixel and fits the arena, the center keeps the whole disc
/// inside the arena, the speed is within the saturation bound, and the color
/// is a 24-bit value.
pub open spec fn ball_ok(b: BallModel, width: int, height: int) -> bool {
    &&& MIN_RADIUS <= b.radius
    &&& 2 * b.radius <= width
    &&& 2 * b.radius <= height
    &&& b.radius <= b.x <= width - b.radius
    &&& b.radius <= b.y <= height - b.radius
    &&& -MAX_SPEED <= b.vx <= MAX_SPEED
    &&& -MAX_SPEED <= b.vy <= MAX_SPEED
    &&& 0 <= b.color <= MAX_COLOR
}

/// The random inputs one split consumes: a speed factor in `[800, 1200)`
/// thousandths, two jitter terms in `[-1000, 1000)` milli-pixels per step,
/// and a fresh 24-bit color.
#[derive(Clone, Copy, Debug)]
pub struct Draw {
    pub factor: i64,
    pub jx: i64,
    pub jy: i64,
    pub color: u32,
}

/// The mathematical model of a [`Draw`].
#[verifier::ext_equal]
pub ghost struct DrawModel {
    pub factor: int,
    pub jx: int,
    pub jy: int,
    pub color: int,
}

impl View for Draw {
    type V = DrawModel;

    open spec fn view(&self) -> DrawModel {
        DrawModel {
            factor: self.factor as int,
            jx: self.jx as int,
            jy: self.jy as int,
            color: self.color as int,
        }
    }
}

/// The ranges the random inputs of one split are drawn from.
pub open spec fn draw_ok(d: DrawModel) -> bool {
    &&& 800 <= d.factor < 1200
    &&& -1000 <= d.jx < 1000
    &&& -1000 <= d.jy < 1000
    &&& 0 <= d.color <= MAX_COLOR
}

pub open spec fn abs_i(v: int) -> int {
    if v < 0 {
        -v
    } else {
        v
    }
}

/// One Euler step of the position; the cooldown flag is cleared at the same
/// time, before any bounce or split is considered.
pub open spec fn moved(b: BallModel) -> BallModel {
    BallModel { x: b.x + b.vx, y: b.y + b.vy, just_split: false, ..b }
}

/// Whether the moved body violates the left or right arena boundary.
pub open spec fn hits_x(b: BallModel, width: int) -> bool {
    b.x - b.radius < 0 || b.x + b.radius > width
}

/// Whether the moved body violates the top or bottom arena boundary.
pub open spec fn hits_y(b: BallModel, height: int) -> bool {
    b.y - b.radius < 0 || b.y + b.radius > height
}

/// Resolve a horizontal boundary violation: clamp the center back into the
/// arena and force the horizontal velocity away from the wall that was hit.
pub open spec fn bounced_x(b: BallModel, width: int) -> BallModel {
    if b.x - b.radius < 0 {
        BallModel { x: b.radius, vx: abs_i(b.vx), ..b }
    } else if b.x + b.radius > width {
        BallModel { x: width - b.radius, vx: -abs_i(b.vx), ..b }
    } else {
        b
    }
}

/// Resolve a vertical boundary violation, symmetrically to [`bounced_x`].
pub open spec fn bounced_y(b: BallModel, height: int) -> BallModel {
    if b.y - b.radius < 0 {
        BallModel { y: b.radius, vy: abs_i(b.vy), ..b }
    } else if b.y + b.radius > height {
        BallModel { y: height - b.radius, vy: -abs_i(b.vy), ..b }
    } else {
        b
    }
}

/// The radius a splitting body shrinks to: the old radius times the split
/// ratio, in thousandths.
pub open spec fn shrunk_radius(radius: int, ratio: int) -> int {
    radius * ratio / (SCALE as int)
}

/// Velocity saturation at `MAX_SPEED`.
pub open spec fn clamp_speed(v: int) -> int {
    if v > MAX_SPEED {
        MAX_SPEED as int
    } else if v < -MAX_SPEED {
        -(MAX_SPEED as int)
    } else {
        v
    }
}

/// A velocity component scaled by `factor` thousandths, rounding the
/// magnitude down (truncation toward zero, as the executable code computes).
pub open spec fn scaled_speed(v: int, factor: int) -> int {
    if v < 0 {
        -((-v) * factor / (SCALE as int))
    } else {
        v * factor / (SCALE as int)
    }
}

/// The body a split spawns: the already-shrunk parent with its speed scaled
/// by the drawn factor, jitter added to the axis parallel to the wall that
/// was hit, a fresh color, and the cooldown flag set.
pub open spec fn spawn_of(parent: BallModel, hx: bool, hy: bool, d: DrawModel) -> BallModel {
    BallModel {
        vx: clamp_speed(scaled_speed(parent.vx, d.factor) + if hy {
            d.jx
        } else {
            0
        }),
        vy: clamp_speed(scaled_speed(parent.vy, d.factor) + if hx {
            d.jy
        } else {
            0
        }),
        color: d.color,
        just_split: true,
        ..parent
    }
}

/// One full step of a single body: integrate, bounce, and decide the split.
/// `room` says whether the population still has room for one more body.
/// The first component is the body afterwards; the second is the spawned
/// body, if the step split.
pub open spec fn step_one(
    b: BallModel,
    width: int,
    height: int,
    ratio: int,
    room: bool,
    d: DrawModel,
) -> (BallModel, Option<BallModel>) {
    let was_cooling = b.just_split;
    let m = moved(b);
    let hx = hits_x(m, width);
    let hy = hits_y(m, height);
    let a = bounced_y(bounced_x(m, width), height);
    if (hx || hy) && !was_cooling && room {
        let nr = shrunk_radius(a.radius, ratio);
        if nr >= MIN_RADIUS {
            let parent = BallModel { radius: nr, just_split: true, ..a };
            (parent, Some(spawn_of(parent, hx, hy, d)))
        } else {
            (
                BallModel {
                    radius: if a.radius >= MIN_RADIUS {
                        a.radius
                    } else {
                        MIN_RADIUS as int
                    },
                    ..a
                },
                None,
            )
        }
    } else {
        (a, None)
    }
}

/// The view of an optional body.
pub open spec fn opt_view(o: Option<Ball>) -> Option<BallModel> {
    match o {
        Some(b) => Some(b@),
        None => None,
    }
}

/// A step keeps a well-formed body well-formed, and any body it spawns is
/// well-formed too: the radius never drops below one pixel, the center
/// stays inside the arena, and the speed stays within the saturation bound.
pub proof fn lemma_step_one_ok(
    b: BallModel,
    width: int,
    height: int,
    ratio: int,
    room: bool,
    d: DrawModel,
)
    requires
        0 < width <= MAX_DIM,
        0 < height <= MAX_DIM,
        1 <= ratio < SCALE,
        ball_ok(b, width, height),
        draw_ok(d),
    ensures
        ball_ok(step_one(b, width, height, ratio, room, d).0, width, height),
        step_one(b, width, height, ratio, room, d).1 matches Some(c) ==> ball_ok(
            c,
            width,
            height,
        ),
{
    let m = moved(b);
    let a = bounced_y(bounced_x(m, width), height);
    assert(a.radius == b.radius);
    assert(ball_ok(a, width, height));
    let nr = shrunk_radius(a.radius, ratio);
    assert(a.radius * ratio <= a.radius * SCALE) by (nonlinear_arith)
        requires
            0 <= a.radius,
            ratio <= SCALE,
    ;
    assert(a.radius * SCALE / (SCALE as int) == a.radius) by (nonlinear_arith)
        requires
            0 <= a.radius,
    ;
    vstd::arithmetic::div_mod::lemma_div_is_ordered(
        a.radius * ratio,
        a.radius * SCALE,
        SCALE as int,
    );
    assert(nr <= a.radius);
}

fn abs64(v: i64) -> (r: i64)
    requires
        v != i64::MIN,
    ensures
        r == abs_i(v as int),
{
    if v < 0 {
        -v
    } else {
        v
    }
}

fn clamp_speed_exec(v: i64) -> (r: i64)
    ensures
        r == clamp_speed(v as int),
{
    if v > MAX_SPEED {
        MAX_SPEED
    } else if v < -MAX_SPEED {
        -MAX_SPEED
    } else {
        v
    }
}

fn scale_speed_exec(v: i64, factor: i64) -> (r: i64)
    requires
        -MAX_SPEED <= v <= MAX_SPEED,
        0 <= factor < 1200,
    ensures
        r == scaled_speed(v as int, factor as int),
        -2_000_000_000_000_000 <= r <= 2_000_000_000_000_000,
{
    proof {
        assert(abs_i(v as int) * factor <= MAX_SPEED * 1200) by (nonlinear_arith)
            requires
                0 <= abs_i(v as int) <= MAX_SPEED,
                0 <= factor < 1200,
        ;
        assert(0 <= abs_i(v as int) * factor);
        assert(abs_i(v as int) * factor / 1000 <= abs_i(v as int) * factor);
    }
    if v < 0 {
        let mag = (((-v) as u64) * (factor as u64)) / (SCALE as u64);
        -(mag as i64)
    } else {
        let mag = ((v as u64) * (factor as u64)) / (SCALE as u64);
        mag as i64
    }
}

/// Execute one step of a single body, matching [`step_one`] exactly.
pub fn step_ball(b: Ball, width: i64, height: i64, ratio: i64, room: bool, d: Draw) -> (r: (
    Ball,
    Option<Ball>,
))
    requires
        0 < width <= MAX_DIM,
        0 < height <= MAX_DIM,
        1 <= ratio < SCALE,
        ball_ok(b@, width as int, height as int),
        draw_ok(d@),
    ensures
        r.0@ == step_one(b@, width as int, height as int, ratio as int, room, d@).0,
        opt_view(r.1) == step_one(b@, width as int, height as int, ratio as int, room, d@).1,
{
    let ghost bm = b@;
    let mut a = b;
    let was_cooling = a.just_split;
    a.just_split = false;
    a.x = a.x + a.vx;
    a.y = a.y + a.vy;
    assert(a@ == moved(bm));

    let mut hx = false;
    let mut hy = false;
    if a.x - a.radius < 0 {
        a.x = a.radius;
        a.vx = abs64(a.vx);
        hx = true;
    } else if a.x + a.radius > width {
        a.x = width - a.radius;
        a.vx = -abs64(a.vx);
        hx = true;
    }
    assert(a@ == bounced_x(moved(bm), width as int));
    assert(hx == hits_x(moved(bm), width as int));

    if a.y - a.radius < 0 {
        a.y = a.radius;
        a.vy = abs64(a.vy);
        hy = true;
    } else if a.y + a.radius > height {
        a.y = height - a.radius;
        a.vy = -abs64(a.vy);
        hy = true;
    }
    assert(a@ == bounced_y(bounced_x(moved(bm), width as int), height as int));
    assert(hy == hits_y(moved(bm), height as int));

    if (hx || hy) && !was_cooling && room {
        proof {
            assert((a.radius as int) * (ratio as int) <= MAX_DIM * 1000) by (nonlinear_arith)
                requires
                    0 <= a.radius as int <= MAX_DIM,
                    0 <= ratio as int <= 1000,
            ;
        }
        let nr = (((a.radius as u64) * (ratio as u64)) / (SCALE as u64)) as i64;
        assert(nr == shrunk_radius(a@.radius, ratio as int));
        if nr >= MIN_RADIUS {
            a.radius = nr;
            a.just_split = true;
            let mut c = a;
            c.vx = clamp_speed_exec(scale_speed_exec(a.vx, d.factor) + if hy {
                d.jx
            } else {
                0
            });
            c.vy = clamp_speed_exec(scale_speed_exec(a.vy, d.factor) + if hx {
                d.jy
            } else {
                0
            });
            c.color = d.color;
            c.just_split = true;
            assert(c@ == spawn_of(a@, hx, hy, d@));
            (a, Some(c))
        } else {
            if a.radius < MIN_RADIUS {
                a.radius = MIN_RADIUS;
            }
            (a, None)
        }
    } else {
        (a, None)
    }
}

} // verus!
