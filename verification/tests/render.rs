use ball_split::ball::Ball;
use ball_split::world::World;

fn small_world(balls: Vec<Ball>) -> World {
    World { balls, width: 8_000, height: 8_000, max_balls: 10, split_ratio: 700 }
}

fn pixel(buf: &[u8], width: usize, x: usize, y: usize) -> [u8; 4] {
    let i = (y * width + x) * 4;
    [buf[i], buf[i + 1], buf[i + 2], buf[i + 3]]
}

const BG: [u8; 4] = [26, 26, 26, 255];

#[test]
fn background_fills_viewport_outside_all_bodies() {
    // The seed body of a 200x200 world lies far outside an 8x8 viewport.
    let w = World::new(200_000, 200_000, 10, 700);
    let mut buf = vec![0u8; 8 * 8 * 4];
    w.render_to_buffer(&mut buf, 8, 8);
    for y in 0..8 {
        for x in 0..8 {
            assert_eq!(pixel(&buf, 8, x, y), BG);
        }
    }
}

#[test]
fn disc_includes_boundary_pixels() {
    let w = small_world(vec![Ball {
        x: 4_000,
        y: 4_000,
        vx: 0,
        vy: 0,
        radius: 2_000,
        color: 0xFF0000,
        just_split: false,
    }]);
    let mut buf = vec![0u8; 8 * 8 * 4];
    w.render_to_buffer(&mut buf, 8, 8);
    let red = [255, 0, 0, 255];
    assert_eq!(pixel(&buf, 8, 4, 4), red);
    // Distance exactly one radius on every side: the boundary is included.
    assert_eq!(pixel(&buf, 8, 2, 4), red);
    assert_eq!(pixel(&buf, 8, 4, 2), red);
    assert_eq!(pixel(&buf, 8, 6, 4), red);
    assert_eq!(pixel(&buf, 8, 4, 6), red);
    assert_eq!(pixel(&buf, 8, 3, 3), red);
    // Just outside the disc.
    assert_eq!(pixel(&buf, 8, 1, 4), BG);
    assert_eq!(pixel(&buf, 8, 7, 4), BG);
    assert_eq!(pixel(&buf, 8, 0, 0), BG);
}

#[test]
fn off_grid_center_keeps_full_disc() {
    // Center at x = 4.5: the last column the disc reaches, 1.5 px from the
    // center, is still painted even though x + radius = 6.5 is not a whole
    // pixel coordinate.
    let w = small_world(vec![Ball {
        x: 4_500,
        y: 4_000,
        vx: 0,
        vy: 0,
        radius: 2_000,
        color: 0x00FF00,
        just_split: false,
    }]);
    let mut buf = vec![0u8; 8 * 8 * 4];
    w.render_to_buffer(&mut buf, 8, 8);
    let green = [0, 255, 0, 255];
    assert_eq!(pixel(&buf, 8, 6, 4), green);
    assert_eq!(pixel(&buf, 8, 3, 4), green);
    assert_eq!(pixel(&buf, 8, 7, 4), BG);
    assert_eq!(pixel(&buf, 8, 2, 4), BG);
}

#[test]
fn color_channels_unpack_into_rgba() {
    let w = small_world(vec![Ball {
        x: 4_000,
        y: 4_000,
        vx: 0,
        vy: 0,
        radius: 2_000,
        color: 0x123456,
        just_split: false,
    }]);
    let mut buf = vec![0u8; 8 * 8 * 4];
    w.render_to_buffer(&mut buf, 8, 8);
    assert_eq!(pixel(&buf, 8, 4, 4), [0x12, 0x34, 0x56, 255]);
}

#[test]
fn later_bodies_draw_over_earlier_ones() {
    let w = small_world(vec![
        Ball { x: 3_000, y: 4_000, vx: 0, vy: 0, radius: 2_000, color: 0xFF0000, just_split: false },
        Ball { x: 5_000, y: 4_000, vx: 0, vy: 0, radius: 2_000, color: 0x0000FF, just_split: false },
    ]);
    let mut buf = vec![0u8; 8 * 8 * 4];
    w.render_to_buffer(&mut buf, 8, 8);
    // Both discs cover (4,4); the later body wins.
    assert_eq!(pixel(&buf, 8, 4, 4), [0, 0, 255, 255]);
    // A pixel only the first disc covers keeps the first color.
    assert_eq!(pixel(&buf, 8, 2, 4), [255, 0, 0, 255]);
}

#[test]
fn render_is_idempotent() {
    let w = small_world(vec![Ball {
        x: 4_000,
        y: 4_000,
        vx: 0,
        vy: 0,
        radius: 2_000,
        color: 0x00FF00,
        just_split: false,
    }]);
    let mut first = vec![0u8; 8 * 8 * 4];
    w.render_to_buffer(&mut first, 8, 8);
    let mut second = first.clone();
    w.render_to_buffer(&mut second, 8, 8);
    assert_eq!(first, second);
}

#[test]
fn trailing_bytes_of_an_incomplete_chunk_are_untouched() {
    let w = World::new(200_000, 200_000, 10, 700);
    let mut buf = vec![0u8; 8 * 8 * 4];
    buf.push(7);
    buf.push(9);
    w.render_to_buffer(&mut buf, 8, 8);
    assert_eq!(buf[256], 7);
    assert_eq!(buf[257], 9);
    assert_eq!(buf[252..256], [26, 26, 26, 255]);
}
