use ball_split::ball::{Ball, Draw};
use ball_split::rng::make_draw;
use ball_split::world::World;

fn fixed_draw() -> Draw {
    Draw { factor: 1000, jx: 0, jy: 0, color: 0x123456 }
}

#[test]
fn new_seeds_single_centered_body() {
    let w = World::new(200_000, 200_000, 10, 700);
    assert_eq!(w.get_balls_len(), 1);
    let b = w.get_ball(0);
    assert_eq!(b.x, 100_000);
    assert_eq!(b.y, 100_000);
    assert_eq!(b.vx, 8_000);
    assert_eq!(b.vy, -6_000);
    assert_eq!(b.radius, 60_000);
    assert_eq!(b.color, 0xFF4444);
    assert!(!b.just_split);
}

#[test]
fn first_wall_contact_splits() {
    // 200x200 arena, cap 10, split ratio 0.7, seed at the center with
    // velocity (8, -6) and radius 60: the first contact is the right wall
    // on the sixth step.
    let mut w = World::new(200_000, 200_000, 10, 700);
    for _ in 0..5 {
        w.update();
        assert_eq!(w.get_balls_len(), 1);
    }
    w.update();
    assert_eq!(w.get_balls_len(), 2);
    let b0 = w.get_ball(0);
    assert_eq!(b0.radius, 42_000);
    assert_eq!(b0.x, 140_000);
    assert_eq!(b0.vx, -8_000);
    assert!(b0.just_split);
    let b1 = w.get_ball(1);
    assert_eq!(b1.radius, 42_000);
    assert_eq!(b1.x, 140_000);
    assert_eq!(b1.y, 64_000);
    assert!(b1.just_split);
}

#[test]
fn top_wall_contact_turns_vy_positive() {
    // After the first split the original body, now radius 42, keeps moving
    // up deterministically and reaches the top wall four steps later: vy is
    // forced positive and, the cooldown long since cleared, it splits again.
    let mut w = World::new(200_000, 200_000, 10, 700);
    for _ in 0..10 {
        w.update();
    }
    let b0 = w.get_ball(0);
    assert_eq!(b0.y, 42_000);
    assert_eq!(b0.vy, 6_000);
    assert_eq!(b0.radius, 29_400);
    assert!(w.get_balls_len() >= 3);
    assert!(w.get_balls_len() <= 10);
}

#[test]
fn cap_of_one_keeps_population_at_one() {
    let mut w = World::new(200_000, 200_000, 1, 700);
    for _ in 0..50 {
        w.update();
        assert_eq!(w.get_balls_len(), 1);
    }
    // With no room to split, the body never shrinks either.
    assert_eq!(w.get_ball(0).radius, 60_000);
}

#[test]
fn population_never_exceeds_cap() {
    // A narrow corridor makes the body hit a wall every step.
    let mut w = World {
        balls: vec![Ball {
            x: 25_000,
            y: 25_000,
            vx: 35_000,
            vy: 0,
            radius: 20_000,
            color: 1,
            just_split: false,
        }],
        width: 50_000,
        height: 50_000,
        max_balls: 3,
        split_ratio: 500,
    };
    for _ in 0..30 {
        w.update();
        assert!(w.get_balls_len() <= 3);
        for i in 0..w.get_balls_len() {
            assert!(w.get_ball(i).radius >= 1_000);
        }
    }
}

#[test]
fn sub_pixel_split_is_refused_and_radius_kept() {
    // Radius 2 with split ratio 0.1: the would-be radius 0.2 is below one
    // pixel, so the wall contact bounces but does not split, and the radius
    // stays 2 (the floor at 1.0 never shrinks a body).
    let mut w = World {
        balls: vec![Ball {
            x: 10_000,
            y: 100_000,
            vx: -9_000,
            vy: 0,
            radius: 2_000,
            color: 0xABCDEF,
            just_split: false,
        }],
        width: 200_000,
        height: 200_000,
        max_balls: 10,
        split_ratio: 100,
    };
    w.update();
    assert_eq!(w.get_balls_len(), 1);
    let b = w.get_ball(0);
    assert_eq!(b.radius, 2_000);
    assert_eq!(b.x, 2_000);
    assert_eq!(b.vx, 9_000);
    assert!(!b.just_split);
}

#[test]
fn cooldown_blocks_next_step_then_clears() {
    // Corridor tuned so the body touches a wall on three consecutive
    // steps: it splits on the first contact, is blocked by the cooldown on
    // the second, and splits again on the third.
    let mut w = World {
        balls: vec![Ball {
            x: 25_000,
            y: 25_000,
            vx: 35_000,
            vy: 0,
            radius: 20_000,
            color: 1,
            just_split: false,
        }],
        width: 50_000,
        height: 50_000,
        max_balls: 10,
        split_ratio: 500,
    };
    let d = fixed_draw();

    w.update_with(&vec![d]);
    assert_eq!(w.get_balls_len(), 2);
    let b0 = w.get_ball(0);
    assert_eq!(b0.radius, 10_000);
    assert_eq!(b0.x, 30_000);
    assert_eq!(b0.vx, -35_000);
    assert!(b0.just_split);
    let b1 = w.get_ball(1);
    assert_eq!(b1.radius, 10_000);
    assert_eq!(b1.x, 30_000);
    assert_eq!(b1.vx, -35_000);
    assert_eq!(b1.vy, 0);
    assert_eq!(b1.color, 0x123456);
    assert!(b1.just_split);

    // Both bodies hit the opposite wall while cooling down: no split.
    w.update_with(&vec![d, d]);
    assert_eq!(w.get_balls_len(), 2);
    let b0 = w.get_ball(0);
    assert_eq!(b0.radius, 10_000);
    assert_eq!(b0.x, 10_000);
    assert_eq!(b0.vx, 35_000);
    assert!(!b0.just_split);

    // Third contact, cooldown over: both split, each adding exactly one.
    w.update_with(&vec![d, d]);
    assert_eq!(w.get_balls_len(), 4);
    assert_eq!(w.get_ball(0).radius, 5_000);
    assert!(w.get_ball(0).just_split);
    assert_eq!(w.get_ball(2).radius, 5_000);
    assert_eq!(w.get_ball(3).radius, 5_000);
}

#[test]
fn spawned_velocity_is_scaled_and_jittered() {
    let mut w = World {
        balls: vec![Ball {
            x: 25_000,
            y: 25_000,
            vx: 35_000,
            vy: 0,
            radius: 20_000,
            color: 1,
            just_split: false,
        }],
        width: 50_000,
        height: 50_000,
        max_balls: 10,
        split_ratio: 500,
    };
    let d = Draw { factor: 1100, jx: 500, jy: -300, color: 0xAB00CD };
    w.update_with(&vec![d]);
    assert_eq!(w.get_balls_len(), 2);
    let c = w.get_ball(1);
    // The contact was horizontal: vx is scaled only, vy gets the jitter.
    assert_eq!(c.vx, -38_500);
    assert_eq!(c.vy, -300);
    assert_eq!(c.color, 0xAB00CD);
}

#[test]
fn drawn_inputs_stay_in_their_ranges() {
    for _ in 0..200 {
        let d = make_draw();
        assert!(800 <= d.factor && d.factor < 1200);
        assert!(-1000 <= d.jx && d.jx < 1000);
        assert!(-1000 <= d.jy && d.jy < 1000);
        assert!(d.color <= 0xFF_FFFF);
    }
}
