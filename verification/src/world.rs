//! The simulation state and its per-frame step.
//!
//! A step advances every body present at its start, resolves wall bounces,
//! and may append split-off bodies, never removing or reordering any.  The
//! whole step is specified by [`step_spec`], a function of the old state and
//! the random inputs the step consumed.

use crate::ball::{
    ball_ok, draw_ok, step_one, Ball, BallModel, Draw, DrawModel, MAX_DIM, SCALE,
};
use crate::rng::make_draw;
use vstd::pervasive::VecAdditionalExecFns;
use vstd::prelude::*;

verus! {

/// Radius of the single body a fresh world is seeded with, in milli-pixels.
pub const SEED_RADIUS: i64 = 60_000;

/// Horizontal velocity of the seed body, in milli-pixels per step.
pub const SEED_VX: i64 = 8_000;

/// Vertical velocity of the seed body, in milli-pixels per step.
pub const SEED_VY: i64 = -6_000;

/// Packed RGB color of the seed body.
pub const SEED_COLOR: u32 = 0xFF4444;

/// The simulation state: the bodies in draw order, the arena dimensions in
/// milli-pixels, the hard population cap, and the split ratio in
/// thousandths.
pub struct World {
    pub balls: Vec<Ball>,
    pub width: i64,
    pub height: i64,
    pub max_balls: usize,
    pub split_ratio: i64,
}

/// The mathematical model of a [`World`].
#[verifier::ext_equal]
pub ghost struct WorldModel {
    pub balls: Seq<BallModel>,
    pub width: int,
    pub height: int,
    pub max_balls: int,
    pub split_ratio: int,
}

impl View for World {
    type V = WorldModel;

    open spec fn view(&self) -> WorldModel {
        WorldModel {
            balls: self.balls@.map_values(|b: Ball| b@),
            width: self.width as int,
            height: self.height as int,
            max_balls: self.max_balls as int,
            split_ratio: self.split_ratio as int,
        }
    }
}

impl WorldModel {
    /// Well-formedness of the state: sane arena and ratio, the population
    /// between one and the cap, and every body well-formed for the arena.
    pub open spec fn wf(self) -> bool {
        &&& 0 < self.width <= MAX_DIM
        &&& 0 < self.height <= MAX_DIM
        &&& 1 <= self.split_ratio < SCALE
        &&& 1 <= self.balls.len() <= self.max_balls
        &&& forall|i: int|
            0 <= i < self.balls.len() ==> ball_ok(
                #[trigger] self.balls[i],
                self.width,
                self.height,
            )
    }
}

/// The random inputs of one whole step: one draw per body present at the
/// start of the step, each within its ranges.
pub open spec fn valid_draws(ds: Seq<DrawModel>, n: int) -> bool {
    &&& ds.len() == n
    &&& forall|i: int| 0 <= i < ds.len() ==> draw_ok(#[trigger] ds[i])
}

/// The step after its first `i` bodies: the first component is those bodies
/// advanced, the second the bodies their splits spawned, in spawn order.
/// A body may split only while the population, spawned bodies included,
/// is still below the cap.
pub open spec fn stepped_prefix(w: WorldModel, ds: Seq<DrawModel>, i: int) -> (
    Seq<BallModel>,
    Seq<BallModel>,
)
    decreases i,
{
    if i <= 0 {
        (Seq::<BallModel>::empty(), Seq::<BallModel>::empty())
    } else {
        let prev = stepped_prefix(w, ds, i - 1);
        let room = w.balls.len() + prev.1.len() < w.max_balls;
        let r = step_one(w.balls[i - 1], w.width, w.height, w.split_ratio, room, ds[i - 1]);
        (
            prev.0.push(r.0),
            match r.1 {
                Some(c) => prev.1.push(c),
                None => prev.1,
            },
        )
    }
}

/// The state one whole step produces from `w` with random inputs `ds`: all
/// bodies advanced in place, then every spawned body appended.
pub open spec fn step_spec(w: WorldModel, ds: Seq<DrawModel>) -> WorldModel {
    let p = stepped_prefix(w, ds, w.balls.len() as int);
    WorldModel { balls: p.0 + p.1, ..w }
}

/// The seed body a fresh world holds: centered, with fixed velocity, radius
/// and color, and no cooldown.
pub open spec fn seed_ball(width: int, height: int) -> BallModel {
    BallModel {
        x: width / 2,
        y: height / 2,
        vx: SEED_VX as int,
        vy: SEED_VY as int,
        radius: SEED_RADIUS as int,
        color: SEED_COLOR as int,
        just_split: false,
    }
}

impl World {
    /// Create a world seeded with exactly one centered body.
    pub fn new(width: i64, height: i64, max_balls: usize, split_ratio: i64) -> (w: World)
        requires
            2 * SEED_RADIUS <= width <= MAX_DIM,
            2 * SEED_RADIUS <= height <= MAX_DIM,
            1 <= max_balls,
            1 <= split_ratio < SCALE,
        ensures
            w@.wf(),
            w@.balls =~= seq![seed_ball(width as int, height as int)],
            w@.width == width,
            w@.height == height,
            w@.max_balls == max_balls,
            w@.split_ratio == split_ratio,
    {
        let mut balls: Vec<Ball> = Vec::new();
        let half_w = ((width as u64) / 2) as i64;
        let half_h = ((height as u64) / 2) as i64;
        balls.push(
            Ball {
                x: half_w,
                y: half_h,
                vx: SEED_VX,
                vy: SEED_VY,
                radius: SEED_RADIUS,
                color: SEED_COLOR,
                just_split: false,
            },
        );
        let w = World { balls, width, height, max_balls, split_ratio };
        proof {
            assert(w@.balls =~= seq![seed_ball(width as int, height as int)]);
            assert(2 * ((width as int) / 2) <= width as int);
            assert(2 * ((height as int) / 2) <= height as int);
            assert(ball_ok(w@.balls[0], width as int, height as int));
        }
        w
    }

    /// Advance the simulation one step, taking the random inputs as an
    /// argument: the new state is exactly [`step_spec`] of the old one.
    pub fn update_with(&mut self, draws: &Vec<Draw>)
        requires
            old(self)@.wf(),
            draws@.len() == old(self)@.balls.len(),
            forall|i: int| 0 <= i < draws@.len() ==> draw_ok(#[trigger] draws@[i]@),
        ensures
            final(self)@.wf(),
            final(self)@ == step_spec(old(self)@, draws@.map_values(|d: Draw| d@)),
    {
        let ghost w0 = old(self)@;
        let ghost dsm = draws@.map_values(|d: Draw| d@);
        proof {
            assert(forall|k: int| 0 <= k < dsm.len() ==> draw_ok(#[trigger] dsm[k]));
        }
        let n = self.balls.len();
        let mut spawned: Vec<Ball> = Vec::new();
        let mut i: usize = 0;
        while i < n
            invariant
                i <= n,
                n == w0.balls.len(),
                self.balls@.len() == n,
                draws@.len() == n,
                dsm == draws@.map_values(|d: Draw| d@),
                w0.wf(),
                self.width as int == w0.width,
                self.height as int == w0.height,
                self.max_balls as int == w0.max_balls,
                self.split_ratio as int == w0.split_ratio,
                forall|k: int| 0 <= k < dsm.len() ==> draw_ok(#[trigger] dsm[k]),
                forall|k: int| i <= k < n ==> #[trigger] self.balls@[k]@ == w0.balls[k],
                self.balls@.take(i as int).map_values(|b: Ball| b@) =~= stepped_prefix(
                    w0,
                    dsm,
                    i as int,
                ).0,
                spawned@.map_values(|b: Ball| b@) =~= stepped_prefix(w0, dsm, i as int).1,
                n + spawned@.len() <= w0.max_balls,
            decreases n - i,
        {
            let ghost prev = stepped_prefix(w0, dsm, i as int);
            let room = n + spawned.len() < self.max_balls;
            let b = self.balls[i];
            proof {
                assert(b@ == w0.balls[i as int]);
                assert(ball_ok(b@, w0.width, w0.height));
                assert(dsm[i as int] == draws@[i as int]@);
            }
            let (nb, sp) = crate::ball::step_ball(
                b,
                self.width,
                self.height,
                self.split_ratio,
                room,
                draws[i],
            );
            self.balls.set(i, nb);
            match sp {
                Some(c) => spawned.push(c),
                None => {},
            }
            proof {
                let next = stepped_prefix(w0, dsm, i + 1);
                assert(next.0 == prev.0.push(
                    step_one(w0.balls[i as int], w0.width, w0.height, w0.split_ratio, room, dsm[i as int]).0,
                ));
                assert(self.balls@.take(i + 1).map_values(|bb: Ball| bb@) =~= next.0);
                assert(spawned@.map_values(|bb: Ball| bb@) =~= next.1);
            }
            i = i + 1;
        }
        proof {
            assert(self.balls@.take(n as int) =~= self.balls@);
        }
        self.balls.append(&mut spawned);
        proof {
            let p = stepped_prefix(w0, dsm, n as int);
            assert(self@.balls =~= p.0 + p.1);
            assert(self@ =~= step_spec(w0, dsm));
            lemma_step_spec_wf(w0, dsm);
        }
    }

    /// Advance the simulation one step, drawing the random inputs from the
    /// process-wide generator: the new state is [`step_spec`] of the old
    /// one for some valid sequence of random inputs.
    pub fn update(&mut self)
        requires
            old(self)@.wf(),
        ensures
            final(self)@.wf(),
            exists|ds: Seq<DrawModel>|
                valid_draws(ds, old(self)@.balls.len() as int) && final(self)@ == step_spec(
                    old(self)@,
                    ds,
                ),
    {
        let n = self.balls.len();
        let mut draws: Vec<Draw> = Vec::new();
        while draws.len() < n
            invariant
                draws@.len() <= n,
                forall|k: int| 0 <= k < draws@.len() ==> draw_ok(#[trigger] draws@[k]@),
            decreases n - draws@.len(),
        {
            draws.push(make_draw());
        }
        self.update_with(&draws);
        proof {
            let dsm = draws@.map_values(|d: Draw| d@);
            assert(valid_draws(dsm, old(self)@.balls.len() as int));
            assert(self@ == step_spec(old(self)@, dsm));
        }
    }

    /// The number of bodies currently in the world.
    pub fn get_balls_len(&self) -> (n: usize)
        ensures
            n == self@.balls.len(),
    {
        self.balls.len()
    }

    /// Read one body, for hosts that render the bodies themselves.
    pub fn get_ball(&self, i: usize) -> (b: Ball)
        requires
            i < self@.balls.len(),
        ensures
            b@ == self@.balls[i as int],
    {
        self.balls[i]
    }
}

/// Whether the population still has room when the step reaches body `i`:
/// the bodies present at the start of the step plus everything spawned by
/// bodies before `i` are still below the cap.
pub open spec fn room_at(w: WorldModel, ds: Seq<DrawModel>, i: int) -> bool {
    w.balls.len() + stepped_prefix(w, ds, i).1.len() < w.max_balls
}

/// What the step does to body `i`, room included.
pub open spec fn result_at(w: WorldModel, ds: Seq<DrawModel>, i: int) -> (
    BallModel,
    Option<BallModel>,
) {
    step_one(w.balls[i], w.width, w.height, w.split_ratio, room_at(w, ds, i), ds[i])
}

/// Whether the step splits body `i`.
pub open spec fn splits_at(w: WorldModel, ds: Seq<DrawModel>, i: int) -> bool {
    result_at(w, ds, i).1 is Some
}

/// The advanced half of the step prefix holds one body per body processed.
pub proof fn lemma_prefix_len(w: WorldModel, ds: Seq<DrawModel>, i: int)
    requires
        0 <= i,
    ensures
        stepped_prefix(w, ds, i).0.len() == i,
    decreases i,
{
    if i > 0 {
        lemma_prefix_len(w, ds, i - 1);
    }
}

/// Once the step has processed body `i`, later bodies change neither what
/// body `i` became nor what the bodies up to `i` spawned.
pub proof fn lemma_prefix_stable(w: WorldModel, ds: Seq<DrawModel>, i: int, j: int)
    requires
        0 <= i < j,
    ensures
        stepped_prefix(w, ds, j).0[i] == result_at(w, ds, i).0,
        stepped_prefix(w, ds, i).1.len() <= stepped_prefix(w, ds, j).1.len(),
    decreases j,
{
    lemma_prefix_len(w, ds, i);
    if j == i + 1 {
        assert(stepped_prefix(w, ds, j).0 == stepped_prefix(w, ds, i).0.push(
            result_at(w, ds, i).0,
        ));
    } else {
        lemma_prefix_stable(w, ds, i, j - 1);
        lemma_prefix_len(w, ds, j - 1);
    }
}

/// Processing one body adds exactly one spawned body when it splits, and
/// none when it does not.
pub proof fn lemma_split_count(w: WorldModel, ds: Seq<DrawModel>, i: int)
    requires
        0 <= i,
    ensures
        stepped_prefix(w, ds, i + 1).1.len() == stepped_prefix(w, ds, i).1.len() + (
        if splits_at(w, ds, i) {
            1int
        } else {
            0int
        }),
        splits_at(w, ds, i) ==> stepped_prefix(w, ds, i + 1).1.last() == result_at(
            w,
            ds,
            i,
        ).1.unwrap(),
{
}

/// Cooldown correctness: a body that carries the cooldown flag does not
/// split during the step, whatever walls it hits; its radius is unchanged,
/// it spawns nothing, and its flag is cleared, so that the very next step
/// may split it again once it meets the split conditions.
pub proof fn lemma_cooldown(w: WorldModel, ds: Seq<DrawModel>, i: int)
    requires
        w.wf(),
        valid_draws(ds, w.balls.len() as int),
        0 <= i < w.balls.len(),
        w.balls[i].just_split,
    ensures
        !splits_at(w, ds, i),
        step_spec(w, ds).balls[i].just_split == false,
        step_spec(w, ds).balls[i].radius == w.balls[i].radius,
        stepped_prefix(w, ds, i + 1).1 == stepped_prefix(w, ds, i).1,
{
    let n = w.balls.len() as int;
    lemma_prefix_len(w, ds, n);
    lemma_prefix_stable(w, ds, i, n);
    assert(step_spec(w, ds).balls[i] == stepped_prefix(w, ds, n).0[i]);
}

/// Split conservation: a body the step splits contributes exactly one new
/// body to the population; the body's own radius shrinks by the split
/// ratio, and the spawned body's radius equals the shrunk radius.
pub proof fn lemma_split_conservation(w: WorldModel, ds: Seq<DrawModel>, i: int)
    requires
        w.wf(),
        valid_draws(ds, w.balls.len() as int),
        0 <= i < w.balls.len(),
        splits_at(w, ds, i),
    ensures
        stepped_prefix(w, ds, i + 1).1.len() == stepped_prefix(w, ds, i).1.len() + 1,
        step_spec(w, ds).balls[i].radius == crate::ball::shrunk_radius(
            w.balls[i].radius,
            w.split_ratio,
        ),
        stepped_prefix(w, ds, i + 1).1.last().radius == step_spec(w, ds).balls[i].radius,
        step_spec(w, ds).balls.len() == w.balls.len() + stepped_prefix(
            w,
            ds,
            w.balls.len() as int,
        ).1.len(),
{
    let n = w.balls.len() as int;
    lemma_prefix_len(w, ds, n);
    lemma_prefix_stable(w, ds, i, n);
    lemma_split_count(w, ds, i);
    assert(step_spec(w, ds).balls[i] == stepped_prefix(w, ds, n).0[i]);
}

/// Every body a step produces is well-formed, and the population stays
/// between its old size and the cap.
pub proof fn lemma_stepped_prefix_ok(w: WorldModel, ds: Seq<DrawModel>, i: int)
    requires
        w.wf(),
        valid_draws(ds, w.balls.len() as int),
        0 <= i <= w.balls.len(),
    ensures
        stepped_prefix(w, ds, i).0.len() == i,
        w.balls.len() + stepped_prefix(w, ds, i).1.len() <= w.max_balls,
        forall|k: int|
            0 <= k < i ==> ball_ok(#[trigger] stepped_prefix(w, ds, i).0[k], w.width, w.height),
        forall|k: int|
            0 <= k < stepped_prefix(w, ds, i).1.len() ==> ball_ok(
                #[trigger] stepped_prefix(w, ds, i).1[k],
                w.width,
                w.height,
            ),
    decreases i,
{
    if i > 0 {
        lemma_stepped_prefix_ok(w, ds, i - 1);
        let prev = stepped_prefix(w, ds, i - 1);
        let room = w.balls.len() + prev.1.len() < w.max_balls;
        crate::ball::lemma_step_one_ok(
            w.balls[i - 1],
            w.width,
            w.height,
            w.split_ratio,
            room,
            ds[i - 1],
        );
    }
}

/// A step of a well-formed world yields a well-formed world.
pub proof fn lemma_step_spec_wf(w: WorldModel, ds: Seq<DrawModel>)
    requires
        w.wf(),
        valid_draws(ds, w.balls.len() as int),
    ensures
        step_spec(w, ds).wf(),
        w.balls.len() <= step_spec(w, ds).balls.len() <= w.max_balls,
{
    let n = w.balls.len() as int;
    lemma_stepped_prefix_ok(w, ds, n);
    let p = stepped_prefix(w, ds, n);
    assert forall|k: int| 0 <= k < (p.0 + p.1).len() implies ball_ok(
        #[trigger] (p.0 + p.1)[k],
        w.width,
        w.height,
    ) by {
        if k < p.0.len() {
            assert((p.0 + p.1)[k] == p.0[k]);
        } else {
            assert((p.0 + p.1)[k] == p.1[k - p.0.len()]);
        }
    }
}

} // verus!

