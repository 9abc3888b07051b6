//! The software rasterizer: paints the bodies into a caller-supplied RGBA
//! buffer, 4 bytes per pixel, row-major.  The whole frame is specified by
//! [`rendered`]: a uniform background over every complete 4-byte chunk,
//! then each body as a filled disc — every pixel whose center is at most
//! one radius from the body's center, the boundary included — in
//! population order, later bodies over earlier ones.  A write whose offset
//! would pass the end of the buffer is skipped; trailing bytes that do not
//! form a complete chunk are left untouched.

use crate::ball::{ball_ok, Ball, BallModel, MAX_COLOR, MAX_DIM, SCALE};
use crate::world::{World, WorldModel};
use vstd::arithmetic::div_mod::{lemma_fundamental_div_mod, lemma_fundamental_div_mod_converse};
use vstd::pervasive::VecAdditionalExecFns;
use vstd::prelude::*;

verus! {

/// One byte of the background fill: dark gray, fully opaque.
pub open spec fn bg_byte(j: int) -> u8 {
    if j == 3 {
        255u8
    } else {
        26u8
    }
}

/// Byte `j` of a drawn pixel of the packed color: red, green, blue, then
/// full alpha.
pub open spec fn channel(color: int, j: int) -> u8 {
    if j == 0 {
        ((color / 0x10000) % 0x100) as u8
    } else if j == 1 {
        ((color / 0x100) % 0x100) as u8
    } else if j == 2 {
        (color % 0x100) as u8
    } else {
        255u8
    }
}

/// First pixel column of the body's bounding box.
pub open spec fn x_lo(b: BallModel) -> int {
    if b.x - b.radius >= 0 {
        (b.x - b.radius) / (SCALE as int)
    } else {
        0
    }
}

/// One past the last pixel column of the bounding box, clipped to the
/// buffer width.  The box is a superset of the disc's columns: every pixel
/// center within one radius of the body's center lies strictly left of it.
pub open spec fn x_hi(b: BallModel, width: int) -> int {
    let e = (b.x + b.radius) / (SCALE as int) + 1;
    if e <= width {
        e
    } else {
        width
    }
}

/// First pixel row of the bounding box.
pub open spec fn y_lo(b: BallModel) -> int {
    if b.y - b.radius >= 0 {
        (b.y - b.radius) / (SCALE as int)
    } else {
        0
    }
}

/// One past the last pixel row of the bounding box, clipped to the buffer
/// height; a superset of the disc's rows, as [`x_hi`] is of its columns.
pub open spec fn y_hi(b: BallModel, height: int) -> int {
    let e = (b.y + b.radius) / (SCALE as int) + 1;
    if e <= height {
        e
    } else {
        height
    }
}

pub open spec fn sq(v: int) -> int {
    v * v
}

/// Whether the body paints the pixel whose center is at column `px`, row
/// `py`: the pixel lies in the viewport and its center is at most one
/// radius from the body's center, the boundary included.
pub open spec fn covers(b: BallModel, px: int, py: int, width: int, height: int) -> bool {
    &&& 0 <= px < width
    &&& 0 <= py < height
    &&& sq(px * (SCALE as int) - b.x) + sq(py * (SCALE as int) - b.y) <= sq(b.radius)
}

/// The condition the rasterizer's loops test: the pixel lies in the body's
/// clipped bounding box and within one radius of the center.  For a body
/// inside the arena this agrees with [`covers`]; see
/// [`lemma_box_covers_equiv`].
pub open spec fn box_covers(b: BallModel, px: int, py: int, width: int, height: int) -> bool {
    &&& x_lo(b) <= px < x_hi(b, width)
    &&& y_lo(b) <= py < y_hi(b, height)
    &&& sq(px * (SCALE as int) - b.x) + sq(py * (SCALE as int) - b.y) <= sq(b.radius)
}

/// The bounding box drops nothing: walking it and testing the distance
/// paints exactly the pixels [`covers`] describes.
pub proof fn lemma_box_covers_equiv(b: BallModel, width: int, height: int, px: int, py: int)
    requires
        b.radius >= 0,
        b.x - b.radius >= 0,
        b.x + b.radius <= MAX_DIM,
        b.y - b.radius >= 0,
        b.y + b.radius <= MAX_DIM,
    ensures
        box_covers(b, px, py, width, height) <==> covers(b, px, py, width, height),
{
    let s = SCALE as int;
    let dx = px * s - b.x;
    let dy = py * s - b.y;
    lemma_fundamental_div_mod(b.x - b.radius, s);
    lemma_fundamental_div_mod(b.x + b.radius, s);
    lemma_fundamental_div_mod(b.y - b.radius, s);
    lemma_fundamental_div_mod(b.y + b.radius, s);
    if covers(b, px, py, width, height) {
        assert(0 <= dx * dx && 0 <= dy * dy) by (nonlinear_arith);
        assert(dx * dx <= sq(b.radius) && dy * dy <= sq(b.radius));
        assert(-b.radius <= dx <= b.radius) by (nonlinear_arith)
            requires
                dx * dx <= b.radius * b.radius,
                b.radius >= 0,
        ;
        assert(-b.radius <= dy <= b.radius) by (nonlinear_arith)
            requires
                dy * dy <= b.radius * b.radius,
                b.radius >= 0,
        ;
        assert(box_covers(b, px, py, width, height));
    }
    if box_covers(b, px, py, width, height) {
        assert(covers(b, px, py, width, height));
    }
}

/// The color the pixel at (`px`, `py`) shows once every body is drawn in
/// order, or `None` where the background shows through.
pub open spec fn paint(
    balls: Seq<BallModel>,
    px: int,
    py: int,
    width: int,
    height: int,
) -> Option<int>
    decreases balls.len(),
{
    if balls.len() == 0 {
        None
    } else if covers(balls.last(), px, py, width, height) {
        Some(balls.last().color)
    } else {
        paint(balls.drop_last(), px, py, width, height)
    }
}

/// Byte `i` of the frame: bytes of a complete 4-byte chunk show the painted
/// pixel or the background; trailing bytes keep their old value.
pub open spec fn rendered_byte(
    balls: Seq<BallModel>,
    width: int,
    height: int,
    len: int,
    orig: Seq<u8>,
    i: int,
) -> u8 {
    let k = i / 4;
    if k < len / 4 {
        if width <= 0 {
            bg_byte(i % 4)
        } else {
            match paint(balls, k % width, k / width, width, height) {
                Some(c) => channel(c, i % 4),
                None => bg_byte(i % 4),
            }
        }
    } else {
        orig[i]
    }
}

/// The whole frame the rasterizer produces over a buffer that held `orig`.
pub open spec fn rendered(w: WorldModel, width: int, height: int, orig: Seq<u8>) -> Seq<u8> {
    Seq::new(
        orig.len(),
        |i: int| rendered_byte(w.balls, width, height, orig.len() as int, orig, i),
    )
}

/// Rendering is idempotent: a second pass over an unchanged state rewrites
/// every byte with the value it already holds.
pub proof fn lemma_render_idempotent(w: WorldModel, width: int, height: int, orig: Seq<u8>)
    ensures
        rendered(w, width, height, rendered(w, width, height, orig)) == rendered(
            w,
            width,
            height,
            orig,
        ),
{
    let b1 = rendered(w, width, height, orig);
    let b2 = rendered(w, width, height, b1);
    assert forall|i: int| 0 <= i < b2.len() implies b2[i] == b1[i] by {}
    assert(b2 =~= b1);
}

/// Rendering depends on the state and dimensions alone: over buffers of
/// equal length made of whole 4-byte chunks, two renders of the same state
/// produce identical frames, whatever the buffers held before.
pub proof fn lemma_render_deterministic(
    w: WorldModel,
    width: int,
    height: int,
    orig1: Seq<u8>,
    orig2: Seq<u8>,
)
    requires
        orig1.len() == orig2.len(),
        orig1.len() % 4 == 0,
    ensures
        rendered(w, width, height, orig1) == rendered(w, width, height, orig2),
{
    let b1 = rendered(w, width, height, orig1);
    let b2 = rendered(w, width, height, orig2);
    assert forall|i: int| 0 <= i < b1.len() implies b1[i] == b2[i] by {
        lemma_fundamental_div_mod(orig1.len() as int, 4);
        lemma_fundamental_div_mod(i, 4);
        assert(i / 4 < orig1.len() as int / 4);
    }
    assert(b1 =~= b2);
}

/// Overwrite every complete 4-byte chunk with the background color.
fn fill_bg(buffer: &mut Vec<u8>)
    ensures
        final(buffer)@.len() == old(buffer)@.len(),
        forall|i: int|
            0 <= i < final(buffer)@.len() ==> final(buffer)@[i] == (
            if i / 4 < final(buffer)@.len() / 4 {
                bg_byte(i % 4)
            } else {
                old(buffer)@[i]
            }),
{
    let len = buffer.len();
    let chunks = len / 4;
    let mut k: usize = 0;
    while k < chunks
        invariant
            buffer@.len() == len,
            chunks == len / 4,
            k <= chunks,
            forall|i: int|
                0 <= i < len ==> buffer@[i] == (
                if i / 4 < k {
                    bg_byte(i % 4)
                } else {
                    old(buffer)@[i]
                }),
        decreases chunks - k,
    {
        proof {
            lemma_fundamental_div_mod(len as int, 4);
        }
        buffer.set(4 * k, 26);
        buffer.set(4 * k + 1, 26);
        buffer.set(4 * k + 2, 26);
        buffer.set(4 * k + 3, 255);
        proof {
            assert forall|i: int| 0 <= i < len implies buffer@[i] == (
            if i / 4 < k + 1 {
                bg_byte(i % 4)
            } else {
                old(buffer)@[i]
            }) by {
                lemma_fundamental_div_mod(i, 4);
                if i / 4 == k {
                    assert(i == 4 * k + i % 4);
                }
            }
        }
        k = k + 1;
    }
}

/// Column and row of the pixel that byte `i` belongs to.
pub open spec fn pix_x(i: int, width: int) -> int {
    (i / 4) % width
}

pub open spec fn pix_y(i: int, width: int) -> int {
    (i / 4) / width
}

/// Draw one body over the buffer: every byte of a complete chunk whose
/// pixel the body covers takes the body's color, every other byte keeps
/// its value.
fn draw_ball(buffer: &mut Vec<u8>, b: &Ball, width: usize, height: usize)
    requires
        b@.radius >= 0,
        b@.x - b@.radius >= 0,
        b@.x + b@.radius <= MAX_DIM,
        b@.y - b@.radius >= 0,
        b@.y + b@.radius <= MAX_DIM,
        0 <= b@.color <= MAX_COLOR,
        width * height * 4 <= usize::MAX,
    ensures
        final(buffer)@.len() == old(buffer)@.len(),
        forall|i: int|
            0 <= i < final(buffer)@.len() ==> final(buffer)@[i] == (
            if i / 4 < final(buffer)@.len() / 4 && covers(
                b@,
                pix_x(i, width as int),
                pix_y(i, width as int),
                width as int,
                height as int,
            ) {
                channel(b@.color, i % 4)
            } else {
                old(buffer)@[i]
            }),
{
    let ghost bm = b@;
    let ghost w_int = width as int;
    let ghost h_int = height as int;
    if width == 0 || height == 0 {
        proof {
            assert forall|i: int| 0 <= i < buffer@.len() implies !covers(
                bm,
                pix_x(i, w_int),
                pix_y(i, w_int),
                w_int,
                h_int,
            ) by {}
        }
        return ;
    }
    let len = buffer.len();
    let rad = b.radius;
    proof {
        assert(bm.radius <= MAX_DIM);
        assert(rad as int * rad as int <= MAX_DIM * MAX_DIM) by (nonlinear_arith)
            requires
                0 <= rad as int <= MAX_DIM,
        ;
    }
    let r2 = rad * rad;
    let red: u8 = ((b.color / 0x10000) % 0x100) as u8;
    let green: u8 = ((b.color / 0x100) % 0x100) as u8;
    let blue: u8 = (b.color % 0x100) as u8;
    proof {
        assert(red == channel(bm.color, 0));
        assert(green == channel(bm.color, 1));
        assert(blue == channel(bm.color, 2));
    }

    let xlo = (((b.x - rad) as u64) / (SCALE as u64)) as usize;
    let xhi_raw = (((b.x + rad) as u64) / (SCALE as u64)) as usize + 1;
    let xhi = if xhi_raw <= width {
        xhi_raw
    } else {
        width
    };
    let ylo = (((b.y - rad) as u64) / (SCALE as u64)) as usize;
    let yhi_raw = (((b.y + rad) as u64) / (SCALE as u64)) as usize + 1;
    let yhi = if yhi_raw <= height {
        yhi_raw
    } else {
        height
    };
    proof {
        assert(xlo as int == x_lo(bm));
        assert(xhi as int == x_hi(bm, w_int));
        assert(ylo as int == y_lo(bm));
        assert(yhi as int == y_hi(bm, h_int));
        assert(xhi <= 100_001 && yhi <= 100_001);
    }

    let mut py = ylo;
    while py < yhi
        invariant
            0 < width,
            0 < height,
            width * height * 4 <= usize::MAX,
            buffer@.len() == len,
            ylo <= py,
            py <= yhi || py == ylo,
            xlo as int == x_lo(bm),
            xhi as int == x_hi(bm, w_int),
            ylo as int == y_lo(bm),
            yhi as int == y_hi(bm, h_int),
            w_int == width as int,
            h_int == height as int,
            xhi <= width,
            yhi <= height,
            xhi <= 100_001,
            yhi <= 100_001,
            bm == b@,
            bm.radius >= 0,
            bm.x - bm.radius >= 0,
            bm.x + bm.radius <= MAX_DIM,
            bm.y - bm.radius >= 0,
            bm.y + bm.radius <= MAX_DIM,
            0 <= bm.color <= MAX_COLOR,
            r2 == sq(bm.radius),
            red == channel(bm.color, 0),
            green == channel(bm.color, 1),
            blue == channel(bm.color, 2),
            forall|i: int|
                0 <= i < len ==> buffer@[i] == (
                if i / 4 < len / 4 && box_covers(bm, pix_x(i, w_int), pix_y(i, w_int), w_int, h_int)
                    && pix_y(i, w_int) < py {
                    channel(bm.color, i % 4)
                } else {
                    old(buffer)@[i]
                }),
        decreases yhi - py,
    {
        let mut px = xlo;
        while px < xhi
            invariant
                0 < width,
                0 < height,
                width * height * 4 <= usize::MAX,
                buffer@.len() == len,
                ylo <= py < yhi,
                xlo <= px,
                px <= xhi || px == xlo,
                xlo as int == x_lo(bm),
                xhi as int == x_hi(bm, w_int),
                ylo as int == y_lo(bm),
                yhi as int == y_hi(bm, h_int),
                w_int == width as int,
                h_int == height as int,
                xhi <= width,
                yhi <= height,
                xhi <= 100_001,
                yhi <= 100_001,
                bm == b@,
                bm.radius >= 0,
                bm.x - bm.radius >= 0,
                bm.x + bm.radius <= MAX_DIM,
                bm.y - bm.radius >= 0,
                bm.y + bm.radius <= MAX_DIM,
                0 <= bm.color <= MAX_COLOR,
                r2 == sq(bm.radius),
                red == channel(bm.color, 0),
                green == channel(bm.color, 1),
                blue == channel(bm.color, 2),
                forall|i: int|
                    0 <= i < len ==> buffer@[i] == (
                    if i / 4 < len / 4 && box_covers(
                        bm,
                        pix_x(i, w_int),
                        pix_y(i, w_int),
                        w_int,
                        h_int,
                    ) && (pix_y(i, w_int) < py || (pix_y(i, w_int) == py && pix_x(i, w_int)
                        < px)) {
                        channel(bm.color, i % 4)
                    } else {
                        old(buffer)@[i]
                    }),
            decreases xhi - px,
        {
            let dx = (px as i64) * SCALE - b.x;
            let dy = (py as i64) * SCALE - b.y;
            let ghost k = py as int * w_int + px as int;
            proof {
                assert(py * width + px < width * height) by (nonlinear_arith)
                    requires
                        0 <= px < width,
                        0 <= py < height,
                ;
                lemma_fundamental_div_mod_converse(k, w_int, py as int, px as int);
                lemma_fundamental_div_mod(len as int, 4);
                assert(-(MAX_DIM as int) <= dx as int <= MAX_DIM);
                assert(-(MAX_DIM as int) <= dy as int <= MAX_DIM);
                assert(dx as int * dx as int <= MAX_DIM * MAX_DIM) by (nonlinear_arith)
                    requires
                        -(MAX_DIM as int) <= dx as int <= MAX_DIM,
                ;
                assert(dy as int * dy as int <= MAX_DIM * MAX_DIM) by (nonlinear_arith)
                    requires
                        -(MAX_DIM as int) <= dy as int <= MAX_DIM,
                ;
                assert(0 <= dx as int * dx as int) by (nonlinear_arith);
                assert(0 <= dy as int * dy as int) by (nonlinear_arith);
            }
            if dx * dx + dy * dy <= r2 {
                let idx = (py * width + px) * 4;
                proof {
                    lemma_fundamental_div_mod_converse(idx as int, 4, k, 0);
                }
                if idx + 3 < len {
                    buffer.set(idx, red);
                    buffer.set(idx + 1, green);
                    buffer.set(idx + 2, blue);
                    buffer.set(idx + 3, 255);
                }
            }
            proof {
                assert(box_covers(bm, px as int, py as int, w_int, h_int) <==> (dx * dx + dy * dy
                    <= r2));
                assert forall|i: int| 0 <= i < len implies buffer@[i] == (
                if i / 4 < len / 4 && box_covers(bm, pix_x(i, w_int), pix_y(i, w_int), w_int, h_int)
                    && (pix_y(i, w_int) < py || (pix_y(i, w_int) == py && pix_x(i, w_int) < px
                    + 1)) {
                    channel(bm.color, i % 4)
                } else {
                    old(buffer)@[i]
                }) by {
                    lemma_fundamental_div_mod(i, 4);
                    let ki = i / 4;
                    lemma_fundamental_div_mod(ki, w_int);
                    if ki == k {
                        assert(pix_x(i, w_int) == px as int && pix_y(i, w_int) == py as int);
                        assert(i == 4 * k + i % 4);
                    } else {
                        assert(w_int * (ki / w_int) == (ki / w_int) * w_int) by (nonlinear_arith);
                        assert(!(pix_y(i, w_int) == py as int && pix_x(i, w_int) == px as int));
                    }
                }
            }
            px = px + 1;
        }
        proof {
            assert forall|i: int| 0 <= i < len implies buffer@[i] == (
            if i / 4 < len / 4 && box_covers(bm, pix_x(i, w_int), pix_y(i, w_int), w_int, h_int)
                && pix_y(i, w_int) < py + 1 {
                channel(bm.color, i % 4)
            } else {
                old(buffer)@[i]
            }) by {}
        }
        py = py + 1;
    }
    proof {
        assert forall|i: int| 0 <= i < len implies buffer@[i] == (
        if i / 4 < len / 4 && covers(bm, pix_x(i, w_int), pix_y(i, w_int), w_int, h_int) {
            channel(bm.color, i % 4)
        } else {
            old(buffer)@[i]
        }) by {
            lemma_box_covers_equiv(bm, w_int, h_int, pix_x(i, w_int), pix_y(i, w_int));
            if box_covers(bm, pix_x(i, w_int), pix_y(i, w_int), w_int, h_int) {
                assert(pix_y(i, w_int) < y_hi(bm, h_int));
            }
        }
    }
}

/// How one more drawn body changes the painted color of a pixel.
proof fn lemma_paint_push(
    balls: Seq<BallModel>,
    j: int,
    px: int,
    py: int,
    width: int,
    height: int,
)
    requires
        0 <= j < balls.len(),
    ensures
        paint(balls.take(j + 1), px, py, width, height) == (
        if covers(balls[j], px, py, width, height) {
            Some(balls[j].color)
        } else {
            paint(balls.take(j), px, py, width, height)
        }),
{
    let s = balls.take(j + 1);
    assert(s.last() == balls[j]);
    assert(s.drop_last() =~= balls.take(j));
}

impl World {
    /// Rasterize the current state into `buffer`, an RGBA pixel buffer of
    /// `width * height` pixels, row-major, 4 bytes per pixel: background
    /// first, then every body in population order.
    pub fn render_to_buffer(&self, buffer: &mut Vec<u8>, width: usize, height: usize)
        requires
            self@.wf(),
            width * height * 4 <= usize::MAX,
        ensures
            final(buffer)@ == rendered(self@, width as int, height as int, old(buffer)@),
    {
        let ghost b0 = old(buffer)@;
        let ghost w_int = width as int;
        let ghost h_int = height as int;
        fill_bg(buffer);
        let n = self.balls.len();
        let mut j: usize = 0;
        while j < n
            invariant
                j <= n,
                n == self@.balls.len(),
                self@.wf(),
                width * height * 4 <= usize::MAX,
                w_int == width as int,
                h_int == height as int,
                buffer@.len() == b0.len(),
                forall|i: int|
                    0 <= i < b0.len() ==> buffer@[i] == rendered_byte(
                        self@.balls.take(j as int),
                        w_int,
                        h_int,
                        b0.len() as int,
                        b0,
                        i,
                    ),
            decreases n - j,
        {
            let b = self.balls[j];
            proof {
                assert(b@ == self@.balls[j as int]);
                assert(ball_ok(b@, self@.width, self@.height));
            }
            let ghost before = buffer@;
            draw_ball(buffer, &b, width, height);
            proof {
                assert forall|i: int| 0 <= i < b0.len() implies buffer@[i] == rendered_byte(
                    self@.balls.take(j + 1),
                    w_int,
                    h_int,
                    b0.len() as int,
                    b0,
                    i,
                ) by {
                    if 0 < w_int && i / 4 < b0.len() as int / 4 {
                        lemma_paint_push(
                            self@.balls,
                            j as int,
                            pix_x(i, w_int),
                            pix_y(i, w_int),
                            w_int,
                            h_int,
                        );
                    }
                }
            }
            j = j + 1;
        }
        proof {
            assert(self@.balls.take(n as int) =~= self@.balls);
            assert(buffer@ =~= rendered(self@, w_int, h_int, b0));
        }
    }
}

} // verus!


