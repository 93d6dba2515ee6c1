//! Drawing primitives over any [`Bitmap`] surface: the checked point draw,
//! rectangle fill, and the integer line rasterizer.

use vstd::prelude::*;
use vstd::string::StrSliceExecFns;

use crate::bitmap::Bitmap;
use crate::bitmap::BitmapView;
use crate::bitmap::BoundsError;
use crate::bitmap::lemma_slot_distinct;
use crate::bitmap::lemma_slot_in_bounds;
use crate::font::lookup_font;
use crate::font::spec_glyph_lit;
use crate::font::spec_has_glyph;

verus! {

/// Write `color` at (x, y) if both range checks pass, else report
/// `BoundsError` and leave the surface untouched.  This is the sole safe
/// mutation entry point; the fast path behind it is reached only after the
/// checks.
pub fn draw_point<T: Bitmap>(buf: &mut T, color: u32, x: i64, y: i64) -> (r: Result<
    (),
    BoundsError,
>)
    requires
        old(buf).bm().wf(),
    ensures
        r is Ok <==> (old(buf).bm().in_x_range(x as int) && old(buf).bm().in_y_range(y as int)),
        r is Ok ==> final(buf).bm() == old(buf).bm().with_pixel(x as int, y as int, color),
        r is Err ==> *final(buf) == *old(buf),
        final(buf).bm().wf(),
        final(buf).bm().same_geometry(old(buf).bm()),
{
    if buf.is_in_x_range(x) && buf.is_in_y_range(y) {
        buf.set_pixel(x, y, color);
        Ok(())
    } else {
        Err(BoundsError)
    }
}

/// Range check for a coordinate that may exceed the `i64` range (a rectangle
/// corner computed as `x + w - 1`).
fn in_x_range_wide<T: Bitmap>(buf: &T, x: i128) -> (r: bool)
    ensures
        r == buf.bm().in_x_range(x as int),
{
    let w = buf.width();
    let l = buf.pixels_per_line();
    let m = if w <= l {
        w
    } else {
        l
    };
    0 <= x && x < m as i128
}

/// Counterpart of `in_x_range_wide` for the y axis.
fn in_y_range_wide<T: Bitmap>(buf: &T, y: i128) -> (r: bool)
    ensures
        r == buf.bm().in_y_range(y as int),
{
    0 <= y && y < buf.height() as i128
}

/// True when (cx, cy) lies in the rectangle of width `w` and height `h`
/// whose top-left corner is (px, py).
pub open spec fn in_rect(px: int, py: int, w: int, h: int, cx: int, cy: int) -> bool {
    px <= cx < px + w && py <= cy < py + h
}

/// Fill the rectangle of width `w` and height `h` at (px, py) with `color`.
/// Both the top-left and the bottom-right corner are validated before any
/// write, so failure has zero side effects; on success every pixel of the
/// rectangle holds `color` and no other pixel changes.
pub fn fill_rect<T: Bitmap>(buf: &mut T, color: u32, px: i64, py: i64, w: i64, h: i64) -> (r:
    Result<(), BoundsError>)
    requires
        old(buf).bm().wf(),
    ensures
        ({
            let b0 = old(buf).bm();
            let b1 = final(buf).bm();
            &&& (r is Ok <==> (b0.in_x_range(px as int) && b0.in_y_range(py as int)
                && b0.in_x_range(px + w - 1) && b0.in_y_range(py + h - 1)))
            &&& (r is Err ==> *final(buf) == *old(buf))
            &&& b1.wf()
            &&& b1.same_geometry(b0)
            &&& (r is Ok ==> forall|cx: int, cy: int|
                0 <= cx < b0.pixels_per_line && 0 <= cy < b0.height ==> b1.pixel(cx, cy) == (
                if in_rect(px as int, py as int, w as int, h as int, cx, cy) {
                    color
                } else {
                    b0.pixel(cx, cy)
                }))
        }),
{
    let cornx: i128 = px as i128 + w as i128 - 1;
    let corny: i128 = py as i128 + h as i128 - 1;
    if !buf.is_in_x_range(px) || !buf.is_in_y_range(py) || !in_x_range_wide(buf, cornx)
        || !in_y_range_wide(buf, corny) {
        return Err(BoundsError);
    }
    let ghost b0 = buf.bm();
    let x_end: i64 = (cornx + 1) as i64;
    let y_end: i64 = (corny + 1) as i64;
    if x_end <= px || y_end <= py {
        // An empty rectangle: both corners are in range but there is nothing
        // to write.
        return Ok(());
    }
    let mut yy: i64 = py;
    while yy < y_end
        invariant
            buf.bm().wf(),
            buf.bm().same_geometry(b0),
            b0.wf(),
            py <= yy <= y_end,
            0 <= px < x_end,
            x_end == px + w,
            y_end == py + h,
            b0.in_x_range(px as int),
            b0.in_y_range(py as int),
            b0.in_x_range(x_end - 1),
            b0.in_y_range(y_end - 1),
            forall|cx: int, cy: int|
                0 <= cx < b0.pixels_per_line && 0 <= cy < b0.height ==> buf.bm().pixel(cx, cy) == (
                if in_rect(px as int, py as int, w as int, h as int, cx, cy) && cy < yy {
                    color
                } else {
                    b0.pixel(cx, cy)
                }),
        decreases y_end - yy,
    {
        let mut xx: i64 = px;
        while xx < x_end
            invariant
                buf.bm().wf(),
                buf.bm().same_geometry(b0),
                b0.wf(),
                px <= xx <= x_end,
                py <= yy < y_end,
                0 <= px,
                x_end == px + w,
                y_end == py + h,
                b0.in_x_range(px as int),
                b0.in_y_range(py as int),
                b0.in_x_range(x_end - 1),
                b0.in_y_range(y_end - 1),
                forall|cx: int, cy: int|
                    0 <= cx < b0.pixels_per_line && 0 <= cy < b0.height ==> buf.bm().pixel(cx, cy)
                        == (if in_rect(px as int, py as int, w as int, h as int, cx, cy) && (cy < yy
                        || (cy == yy && cx < xx)) {
                        color
                    } else {
                        b0.pixel(cx, cy)
                    }),
            decreases x_end - xx,
        {
            let ghost bprev = buf.bm();
            buf.set_pixel(xx, yy, color);
            proof {
                lemma_slot_in_bounds(bprev, xx as int, yy as int);
                assert forall|cx: int, cy: int|
                    0 <= cx < b0.pixels_per_line && 0 <= cy < b0.height implies buf.bm().pixel(
                    cx,
                    cy,
                ) == (if in_rect(px as int, py as int, w as int, h as int, cx, cy) && (cy < yy || (
                cy == yy && cx < xx + 1)) {
                    color
                } else {
                    b0.pixel(cx, cy)
                }) by {
                    if cx == xx as int && cy == yy as int {
                        assert(buf.bm().pixel(cx, cy) == color);
                    } else {
                        lemma_slot_in_bounds(bprev, cx, cy);
                        lemma_slot_distinct(bprev, cx, cy, xx as int, yy as int);
                        assert(buf.bm().pixel(cx, cy) == bprev.pixel(cx, cy));
                    }
                }
            }
            xx = xx + 1;
        }
        yy = yy + 1;
    }
    Ok(())
}

/// Magnitude of the difference between two coordinates.
pub open spec fn delta(a: int, b: int) -> int {
    if b >= a {
        b - a
    } else {
        a - b
    }
}

/// Unit step from one coordinate toward another: 1, -1 or 0.
pub open spec fn step_dir(a: int, b: int) -> int {
    if b > a {
        1
    } else if b < a {
        -1
    } else {
        0
    }
}

/// The minor-axis offset of the rasterized line at major-axis offset `ia`:
/// the exact rational `db * ia / da` rounded to the nearest integer, ties
/// rounding up.  Meaningful for `0 < da` and `0 <= db`.
pub open spec fn slope_q(da: int, db: int, ia: int) -> int {
    (2 * db * ia + da) / da / 2
}

/// For a major-axis delta `da`, minor-axis delta `db <= da` and an index
/// `ia` in `[0, da]`, the slope point lies in `[0, db]`: the rasterized line
/// never leaves the bounding box of its endpoints.
pub proof fn lemma_slope_q_bounds(da: int, db: int, ia: int)
    requires
        0 < da,
        0 <= db,
        0 <= ia <= da,
    ensures
        0 <= slope_q(da, db, ia) <= db,
{
    let n = 2 * db * ia + da;
    assert(0 <= 2 * db * ia && 2 * db * ia <= 2 * db * da) by (nonlinear_arith)
        requires
            0 <= db,
            0 <= ia <= da,
    ;
    vstd::arithmetic::div_mod::lemma_div_pos_is_pos(n, da);
    vstd::arithmetic::div_mod::lemma_div_pos_is_pos(n / da, 2);
    assert(n < da * (2 * db + 2)) by (nonlinear_arith)
        requires
            0 < da,
            2 * db * ia <= 2 * db * da,
            n == 2 * db * ia + da,
    ;
    vstd::arithmetic::div_mod::lemma_multiply_divide_lt(n, da, 2 * db + 2);
    assert(n / da < 2 * (db + 1));
    vstd::arithmetic::div_mod::lemma_multiply_divide_lt(n / da, 2, db + 1);
}

/// Compute the minor-axis offset of a line point.  `da` is the major-axis
/// delta magnitude, `db` the minor-axis delta magnitude, `ia` an index along
/// the major axis.  A call shape with `da < db`, or an index outside
/// `[0, da]`, yields no point; `da == 0` is the degenerate line.
pub fn calc_slope_point(da: i64, db: i64, ia: i64) -> (r: Option<i64>)
    requires
        db >= 0,
    ensures
        da < db ==> r is None,
        da >= db && da == 0 ==> r == Some(0i64),
        da >= db && da > 0 && 0 <= ia <= da ==> r == Some(
            slope_q(da as int, db as int, ia as int) as i64,
        ),
        da >= db && da > 0 && !(0 <= ia <= da) ==> r is None,
{
    if da < db {
        None
    } else if da == 0 {
        Some(0)
    } else if 0 <= ia && ia <= da {
        proof {
            assert(0 <= 2 * (db as int) * (ia as int) <= u128::MAX - u64::MAX)
                by (nonlinear_arith)
                requires
                    0 <= db <= i64::MAX,
                    0 <= ia <= i64::MAX,
            ;
            lemma_slope_q_bounds(da as int, db as int, ia as int);
        }
        let n: u128 = 2 * (db as u128) * (ia as u128) + (da as u128);
        let q: u128 = n / (da as u128) / 2;
        Some(q as i64)
    } else {
        None
    }
}

/// Whether (cx, cy) is one of the first `bound` points rasterized along the
/// x axis from (x0, y0) toward (x1, y1).  A point's major-axis index is
/// determined by its x coordinate.
pub open spec fn line_hits_major_x(
    x0: int,
    y0: int,
    x1: int,
    y1: int,
    bound: int,
    cx: int,
    cy: int,
) -> bool {
    let sx = step_dir(x0, x1);
    let sy = step_dir(y0, y1);
    let j = sx * (cx - x0);
    &&& 0 <= j < bound
    &&& cx == x0 + j * sx
    &&& cy == y0 + slope_q(delta(x0, x1), delta(y0, y1), j) * sy
}

/// Counterpart of `line_hits_major_x` with the y axis as the major axis.
pub open spec fn line_hits_major_y(
    x0: int,
    y0: int,
    x1: int,
    y1: int,
    bound: int,
    cx: int,
    cy: int,
) -> bool {
    let sx = step_dir(x0, x1);
    let sy = step_dir(y0, y1);
    let j = sy * (cy - y0);
    &&& 0 <= j < bound
    &&& cy == y0 + j * sy
    &&& cx == x0 + slope_q(delta(y0, y1), delta(x0, x1), j) * sx
}

/// The set of points drawn for the line from (x0, y0) to (x1, y1): the
/// degenerate line draws its single point; otherwise the major axis is
/// stepped over `[0, delta)`, so the final endpoint is excluded.
pub open spec fn line_hits(x0: int, y0: int, x1: int, y1: int, cx: int, cy: int) -> bool {
    let dx = delta(x0, x1);
    let dy = delta(y0, y1);
    if dx == 0 && dy == 0 {
        cx == x0 && cy == y0
    } else if dx >= dy {
        line_hits_major_x(x0, y0, x1, y1, dx, cx, cy)
    } else {
        line_hits_major_y(x0, y0, x1, y1, dy, cx, cy)
    }
}

/// Multiplying by a unit step keeps, negates or cancels the other factor.
proof fn lemma_unit_mul(s: int, v: int)
    requires
        s == 1 || s == -1 || s == 0,
    ensures
        s * v == (if s == 1 {
            v
        } else if s == -1 {
            -v
        } else {
            0
        }),
        v * s == (if s == 1 {
            v
        } else if s == -1 {
            -v
        } else {
            0
        }),
{
    assert(s * v == (if s == 1 {
        v
    } else if s == -1 {
        -v
    } else {
        0
    }) && v * s == (if s == 1 {
        v
    } else if s == -1 {
        -v
    } else {
        0
    })) by (nonlinear_arith)
        requires
            s == 1 || s == -1 || s == 0,
    ;
}

/// Draw the line from (x0, y0) to (x1, y1) in `color`.  All four
/// coordinates are validated before any write, so failure has zero side
/// effects.  The major axis is stepped one pixel per iteration over
/// `[0, delta)`, so the final endpoint is not drawn unless the line is
/// degenerate; each point still goes through the checked point draw as a
/// defensive measure.
#[verifier::loop_isolation(false)]
pub fn draw_line<T: Bitmap>(buf: &mut T, color: u32, x0: i64, y0: i64, x1: i64, y1: i64) -> (r:
    Result<(), BoundsError>)
    requires
        old(buf).bm().wf(),
    ensures
        ({
            let b0 = old(buf).bm();
            let b1 = final(buf).bm();
            &&& (r is Ok <==> (b0.in_x_range(x0 as int) && b0.in_x_range(x1 as int)
                && b0.in_y_range(y0 as int) && b0.in_y_range(y1 as int)))
            &&& (r is Err ==> *final(buf) == *old(buf))
            &&& b1.wf()
            &&& b1.same_geometry(b0)
            &&& (r is Ok ==> forall|cx: int, cy: int|
                0 <= cx < b0.pixels_per_line && 0 <= cy < b0.height ==> b1.pixel(cx, cy) == (
                if line_hits(x0 as int, y0 as int, x1 as int, y1 as int, cx, cy) {
                    color
                } else {
                    b0.pixel(cx, cy)
                }))
        }),
{
    if !buf.is_in_x_range(x0) || !buf.is_in_x_range(x1) || !buf.is_in_y_range(y0)
        || !buf.is_in_y_range(y1) {
        return Err(BoundsError);
    }
    let ghost b0 = buf.bm();
    let dx: i64 = if x1 >= x0 {
        x1 - x0
    } else {
        x0 - x1
    };
    let sx: i64 = if x1 > x0 {
        1
    } else if x1 < x0 {
        -1
    } else {
        0
    };
    let dy: i64 = if y1 >= y0 {
        y1 - y0
    } else {
        y0 - y1
    };
    let sy: i64 = if y1 > y0 {
        1
    } else if y1 < y0 {
        -1
    } else {
        0
    };
    proof {
        assert(dx as int == delta(x0 as int, x1 as int));
        assert(sx as int == step_dir(x0 as int, x1 as int));
        assert(dy as int == delta(y0 as int, y1 as int));
        assert(sy as int == step_dir(y0 as int, y1 as int));
    }
    if dx == 0 && dy == 0 {
        let ghost bprev = buf.bm();
        let drawn = draw_point(buf, color, x0, y0);
        proof {
            assert(drawn is Ok);
            lemma_slot_in_bounds(bprev, x0 as int, y0 as int);
            assert forall|cx: int, cy: int|
                0 <= cx < b0.pixels_per_line && 0 <= cy < b0.height implies buf.bm().pixel(cx, cy)
                == (if line_hits(x0 as int, y0 as int, x1 as int, y1 as int, cx, cy) {
                color
            } else {
                b0.pixel(cx, cy)
            }) by {
                if cx == x0 as int && cy == y0 as int {
                } else {
                    lemma_slot_in_bounds(bprev, cx, cy);
                    lemma_slot_distinct(bprev, cx, cy, x0 as int, y0 as int);
                }
            }
        }
        return Ok(());
    }
    if dx >= dy {
        let mut ia: i64 = 0;
        while ia < dx
            invariant
                0 <= ia <= dx,
                buf.bm().wf(),
                buf.bm().same_geometry(b0),
                forall|cx: int, cy: int|
                    0 <= cx < b0.pixels_per_line && 0 <= cy < b0.height ==> buf.bm().pixel(cx, cy)
                        == (if line_hits_major_x(
                        x0 as int,
                        y0 as int,
                        x1 as int,
                        y1 as int,
                        ia as int,
                        cx,
                        cy,
                    ) {
                        color
                    } else {
                        b0.pixel(cx, cy)
                    }),
            decreases dx - ia,
        {
            let ry: i64 = match calc_slope_point(dx, dy, ia) {
                Some(v) => v,
                None => 0,
            };
            proof {
                lemma_slope_q_bounds(dx as int, dy as int, ia as int);
                assert(ry == slope_q(dx as int, dy as int, ia as int));
                lemma_unit_mul(sx as int, ia as int);
                lemma_unit_mul(sy as int, ry as int);
            }
            let qx: i64 = x0 + ia * sx;
            let qy: i64 = y0 + ry * sy;
            let ghost bprev = buf.bm();
            let drawn = draw_point(buf, color, qx, qy);
            proof {
                assert(bprev.in_x_range(qx as int) && bprev.in_y_range(qy as int));
                assert(drawn is Ok);
                assert(buf.bm() == bprev.with_pixel(qx as int, qy as int, color));
                lemma_slot_in_bounds(bprev, qx as int, qy as int);
                assert forall|cx: int, cy: int|
                    0 <= cx < b0.pixels_per_line && 0 <= cy < b0.height implies buf.bm().pixel(
                    cx,
                    cy,
                ) == (if line_hits_major_x(
                    x0 as int,
                    y0 as int,
                    x1 as int,
                    y1 as int,
                    ia as int + 1,
                    cx,
                    cy,
                ) {
                    color
                } else {
                    b0.pixel(cx, cy)
                }) by {
                    lemma_unit_mul(sx as int, ia as int);
                    lemma_unit_mul(sx as int, cx - x0 as int);
                    if cx == qx as int && cy == qy as int {
                        assert(step_dir(x0 as int, x1 as int) * (cx - x0 as int) == ia as int);
                        assert(line_hits_major_x(
                            x0 as int,
                            y0 as int,
                            x1 as int,
                            y1 as int,
                            ia as int + 1,
                            cx,
                            cy,
                        ));
                        assert(buf.bm().pixel(cx, cy) == color);
                    } else {
                        lemma_slot_in_bounds(bprev, cx, cy);
                        lemma_slot_distinct(bprev, cx, cy, qx as int, qy as int);
                        assert(buf.bm().pixel(cx, cy) == bprev.pixel(cx, cy));
                        if line_hits_major_x(
                            x0 as int,
                            y0 as int,
                            x1 as int,
                            y1 as int,
                            ia as int + 1,
                            cx,
                            cy,
                        ) {
                            let j = step_dir(x0 as int, x1 as int) * (cx - x0 as int);
                            lemma_unit_mul(sx as int, j);
                            lemma_unit_mul(sy as int, slope_q(dx as int, dy as int, j));
                            assert(j < ia as int);
                            assert(line_hits_major_x(
                                x0 as int,
                                y0 as int,
                                x1 as int,
                                y1 as int,
                                ia as int,
                                cx,
                                cy,
                            ));
                            assert(bprev.pixel(cx, cy) == color);
                        } else {
                            assert(!line_hits_major_x(
                                x0 as int,
                                y0 as int,
                                x1 as int,
                                y1 as int,
                                ia as int,
                                cx,
                                cy,
                            ));
                            assert(bprev.pixel(cx, cy) == b0.pixel(cx, cy));
                        }
                    }
                }
            }
            ia = ia + 1;
        }
        Ok(())
    } else {
        let mut ia: i64 = 0;
        while ia < dy
            invariant
                0 <= ia <= dy,
                buf.bm().wf(),
                buf.bm().same_geometry(b0),
                forall|cx: int, cy: int|
                    0 <= cx < b0.pixels_per_line && 0 <= cy < b0.height ==> buf.bm().pixel(cx, cy)
                        == (if line_hits_major_y(
                        x0 as int,
                        y0 as int,
                        x1 as int,
                        y1 as int,
                        ia as int,
                        cx,
                        cy,
                    ) {
                        color
                    } else {
                        b0.pixel(cx, cy)
                    }),
            decreases dy - ia,
        {
            let rx: i64 = match calc_slope_point(dy, dx, ia) {
                Some(v) => v,
                None => 0,
            };
            proof {
                lemma_slope_q_bounds(dy as int, dx as int, ia as int);
                assert(rx == slope_q(dy as int, dx as int, ia as int));
                lemma_unit_mul(sy as int, ia as int);
                lemma_unit_mul(sx as int, rx as int);
            }
            let qx: i64 = x0 + rx * sx;
            let qy: i64 = y0 + ia * sy;
            let ghost bprev = buf.bm();
            let drawn = draw_point(buf, color, qx, qy);
            proof {
                assert(bprev.in_x_range(qx as int) && bprev.in_y_range(qy as int));
                assert(drawn is Ok);
                assert(buf.bm() == bprev.with_pixel(qx as int, qy as int, color));
                lemma_slot_in_bounds(bprev, qx as int, qy as int);
                assert forall|cx: int, cy: int|
                    0 <= cx < b0.pixels_per_line && 0 <= cy < b0.height implies buf.bm().pixel(
                    cx,
                    cy,
                ) == (if line_hits_major_y(
                    x0 as int,
                    y0 as int,
                    x1 as int,
                    y1 as int,
                    ia as int + 1,
                    cx,
                    cy,
                ) {
                    color
                } else {
                    b0.pixel(cx, cy)
                }) by {
                    lemma_unit_mul(sy as int, ia as int);
                    lemma_unit_mul(sy as int, cy - y0 as int);
                    if cx == qx as int && cy == qy as int {
                        assert(step_dir(y0 as int, y1 as int) * (cy - y0 as int) == ia as int);
                        assert(line_hits_major_y(
                            x0 as int,
                            y0 as int,
                            x1 as int,
                            y1 as int,
                            ia as int + 1,
                            cx,
                            cy,
                        ));
                        assert(buf.bm().pixel(cx, cy) == color);
                    } else {
                        lemma_slot_in_bounds(bprev, cx, cy);
                        lemma_slot_distinct(bprev, cx, cy, qx as int, qy as int);
                        assert(buf.bm().pixel(cx, cy) == bprev.pixel(cx, cy));
                        if line_hits_major_y(
                            x0 as int,
                            y0 as int,
                            x1 as int,
                            y1 as int,
                            ia as int + 1,
                            cx,
                            cy,
                        ) {
                            let j = step_dir(y0 as int, y1 as int) * (cy - y0 as int);
                            lemma_unit_mul(sy as int, j);
                            lemma_unit_mul(sx as int, slope_q(dy as int, dx as int, j));
                            assert(j < ia as int);
                            assert(line_hits_major_y(
                                x0 as int,
                                y0 as int,
                                x1 as int,
                                y1 as int,
                                ia as int,
                                cx,
                                cy,
                            ));
                            assert(bprev.pixel(cx, cy) == color);
                        } else {
                            assert(!line_hits_major_y(
                                x0 as int,
                                y0 as int,
                                x1 as int,
                                y1 as int,
                                ia as int,
                                cx,
                                cy,
                            ));
                            assert(bprev.pixel(cx, cy) == b0.pixel(cx, cy));
                        }
                    }
                }
            }
            ia = ia + 1;
        }
        Ok(())
    }
}

/// The condition under which drawing the glyph of `c` anchored at (x, y)
/// paints the surface cell (cx, cy): the table holds a glyph for `c`, the
/// cell lies inside the glyph's 8 by 16 box, the glyph cell is lit, and the
/// cell passes both range checks.  Unlit cells are left untouched, and cells
/// landing outside the surface are silently dropped.
pub open spec fn glyph_paints(
    b: BitmapView,
    font: Seq<u8>,
    c: char,
    x: int,
    y: int,
    cx: int,
    cy: int,
) -> bool {
    &&& spec_has_glyph(font, c)
    &&& x <= cx < x + 8
    &&& y <= cy < y + 16
    &&& spec_glyph_lit(font, c, cx - x, cy - y)
    &&& b.in_x_range(cx)
    &&& b.in_y_range(cy)
}

/// Paint the lit cells of the glyph of `c` at its natural 8 by 16 cell
/// anchored at (x, y), in the foreground color; unlit cells are left
/// untouched and out-of-surface cells are dropped.  A character without a
/// glyph draws nothing.
#[verifier::loop_isolation(false)]
pub fn draw_font_fg<T: Bitmap>(buf: &mut T, x: i64, y: i64, color: u32, c: char, font: &[u8])
    requires
        old(buf).bm().wf(),
    ensures
        final(buf).bm().wf(),
        final(buf).bm().same_geometry(old(buf).bm()),
        forall|cx: int, cy: int|
            0 <= cx < old(buf).bm().pixels_per_line && 0 <= cy < old(buf).bm().height
                ==> final(buf).bm().pixel(cx, cy) == (if glyph_paints(
                old(buf).bm(),
                font@,
                c,
                x as int,
                y as int,
                cx,
                cy,
            ) {
                color
            } else {
                old(buf).bm().pixel(cx, cy)
            }),
{
    let glyph = match lookup_font(font, c) {
        Some(g) => g,
        None => {
            return ;
        },
    };
    let ghost b0 = buf.bm();
    let mut dy: usize = 0;
    while dy < 16
        invariant
            dy <= 16,
            buf.bm().wf(),
            buf.bm().same_geometry(b0),
            forall|cx: int, cy: int|
                0 <= cx < b0.pixels_per_line && 0 <= cy < b0.height ==> buf.bm().pixel(cx, cy) == (
                if glyph_paints(b0, font@, c, x as int, y as int, cx, cy) && cy - y < dy {
                    color
                } else {
                    b0.pixel(cx, cy)
                }),
        decreases 16 - dy,
    {
        let mut dx: usize = 0;
        while dx < 8
            invariant
                dx <= 8,
                dy < 16,
                buf.bm().wf(),
                buf.bm().same_geometry(b0),
                forall|cx: int, cy: int|
                    0 <= cx < b0.pixels_per_line && 0 <= cy < b0.height ==> buf.bm().pixel(cx, cy)
                        == (if glyph_paints(b0, font@, c, x as int, y as int, cx, cy) && (cy - y
                        < dy || (cy - y == dy && cx - x < dx)) {
                        color
                    } else {
                        b0.pixel(cx, cy)
                    }),
            decreases 8 - dx,
        {
            if glyph.lit_at(dx, dy) {
                let cxw: i128 = x as i128 + dx as i128;
                let cyw: i128 = y as i128 + dy as i128;
                if cxw <= i64::MAX as i128 && cyw <= i64::MAX as i128 {
                    let qx: i64 = cxw as i64;
                    let qy: i64 = cyw as i64;
                    let ghost bprev = buf.bm();
                    let drawn = draw_point(buf, color, qx, qy);
                    proof {
                        assert forall|cx: int, cy: int|
                            0 <= cx < b0.pixels_per_line && 0 <= cy < b0.height implies buf.bm().pixel(
                            cx,
                            cy,
                        ) == (if glyph_paints(b0, font@, c, x as int, y as int, cx, cy) && (cy - y
                            < dy || (cy - y == dy && cx - x < dx + 1)) {
                            color
                        } else {
                            b0.pixel(cx, cy)
                        }) by {
                            if cx == qx as int && cy == qy as int {
                                if drawn is Ok {
                                    lemma_slot_in_bounds(bprev, cx, cy);
                                    assert(buf.bm().pixel(cx, cy) == color);
                                } else {
                                    assert(!bprev.in_x_range(cx) || !bprev.in_y_range(cy));
                                    assert(!glyph_paints(b0, font@, c, x as int, y as int, cx, cy));
                                    assert(buf.bm().pixel(cx, cy) == bprev.pixel(cx, cy));
                                }
                            } else {
                                if drawn is Ok {
                                    lemma_slot_in_bounds(bprev, cx, cy);
                                    lemma_slot_in_bounds(bprev, qx as int, qy as int);
                                    lemma_slot_distinct(bprev, cx, cy, qx as int, qy as int);
                                    assert(buf.bm().pixel(cx, cy) == bprev.pixel(cx, cy));
                                } else {
                                    assert(buf.bm().pixel(cx, cy) == bprev.pixel(cx, cy));
                                }
                            }
                        }
                    }
                } else {
                    proof {
                        assert(x as int + dx as int > i64::MAX || y as int + dy as int
                            > i64::MAX);
                        assert forall|cx: int, cy: int|
                            0 <= cx < b0.pixels_per_line && 0 <= cy < b0.height && cx == x as int
                                + dx as int && cy == y as int + dy as int implies !glyph_paints(
                            b0,
                            font@,
                            c,
                            x as int,
                            y as int,
                            cx,
                            cy,
                        ) by {
                            assert(cx > i64::MAX || cy > i64::MAX);
                            assert(b0.x_extent() <= i64::MAX && b0.height <= i64::MAX);
                        }
                    }
                }
            }
            dx = dx + 1;
        }
        dy = dy + 1;
    }
}

/// Whether one of the first `n` characters of `s`, drawn left to right from
/// (x, y) with the pen advancing 8 columns per character, paints the
/// surface cell (cx, cy).
pub open spec fn str_paints_upto(
    b: BitmapView,
    font: Seq<u8>,
    s: Seq<char>,
    x: int,
    y: int,
    n: int,
    cx: int,
    cy: int,
) -> bool {
    exists|i: int| 0 <= i < n && glyph_paints(b, font, s[i], x + 8 * i, y, cx, cy)
}

/// Whether drawing the whole of `s` from (x, y) paints the surface cell
/// (cx, cy).
pub open spec fn str_paints(
    b: BitmapView,
    font: Seq<u8>,
    s: Seq<char>,
    x: int,
    y: int,
    cx: int,
    cy: int,
) -> bool {
    str_paints_upto(b, font, s, x, y, s.len() as int, cx, cy)
}

/// Draw `s` left to right from (x, y): each character's glyph is anchored 8
/// columns after the previous one, with no wrapping and no variable width.
#[verifier::loop_isolation(false)]
pub fn draw_str_fg<T: Bitmap>(buf: &mut T, x: i64, y: i64, color: u32, s: &str, font: &[u8])
    requires
        old(buf).bm().wf(),
    ensures
        final(buf).bm().wf(),
        final(buf).bm().same_geometry(old(buf).bm()),
        forall|cx: int, cy: int|
            0 <= cx < old(buf).bm().pixels_per_line && 0 <= cy < old(buf).bm().height
                ==> final(buf).bm().pixel(cx, cy) == (if str_paints(
                old(buf).bm(),
                font@,
                s@,
                x as int,
                y as int,
                cx,
                cy,
            ) {
                color
            } else {
                old(buf).bm().pixel(cx, cy)
            }),
{
    let ghost b0 = buf.bm();
    let n = s.unicode_len();
    let mut i: usize = 0;
    while i < n
        invariant
            i <= n,
            n == s@.len(),
            buf.bm().wf(),
            buf.bm().same_geometry(b0),
            forall|cx: int, cy: int|
                0 <= cx < b0.pixels_per_line && 0 <= cy < b0.height ==> buf.bm().pixel(cx, cy) == (
                if str_paints_upto(b0, font@, s@, x as int, y as int, i as int, cx, cy) {
                    color
                } else {
                    b0.pixel(cx, cy)
                }),
        decreases n - i,
    {
        let c = s.get_char(i);
        let cxw: i128 = x as i128 + 8 * (i as i128);
        let ghost qpos = x as int + 8 * (i as int);
        let ghost bprev = buf.bm();
        if cxw <= i64::MAX as i128 {
            let qx: i64 = cxw as i64;
            draw_font_fg(buf, qx, y, color, c, font);
            proof {
                assert forall|cx: int, cy: int|
                    glyph_paints(bprev, font@, c, qpos, y as int, cx, cy) == glyph_paints(
                    b0,
                    font@,
                    c,
                    qpos,
                    y as int,
                    cx,
                    cy,
                ) by {
                    assert(bprev.x_extent() == b0.x_extent());
                }
            }
        } else {
            proof {
                assert forall|cx: int, cy: int| !glyph_paints(b0, font@, c, qpos, y as int, cx, cy) by {
                    assert(b0.x_extent() <= i64::MAX);
                }
            }
        }
        proof {
            assert forall|cx: int, cy: int|
                0 <= cx < b0.pixels_per_line && 0 <= cy < b0.height implies buf.bm().pixel(cx, cy)
                == (if str_paints_upto(b0, font@, s@, x as int, y as int, i as int + 1, cx, cy) {
                color
            } else {
                b0.pixel(cx, cy)
            }) by {
                if glyph_paints(b0, font@, s@[i as int], qpos, y as int, cx, cy) {
                    assert(str_paints_upto(b0, font@, s@, x as int, y as int, i as int + 1, cx, cy));
                    assert(buf.bm().pixel(cx, cy) == color);
                } else {
                    assert(buf.bm().pixel(cx, cy) == bprev.pixel(cx, cy));
                    if str_paints_upto(b0, font@, s@, x as int, y as int, i as int + 1, cx, cy) {
                        let j = choose|j: int|
                            0 <= j < i as int + 1 && glyph_paints(
                                b0,
                                font@,
                                s@[j],
                                x as int + 8 * j,
                                y as int,
                                cx,
                                cy,
                            );
                        assert(j < i as int);
                        assert(str_paints_upto(b0, font@, s@, x as int, y as int, i as int, cx, cy));
                    } else {
                        if str_paints_upto(b0, font@, s@, x as int, y as int, i as int, cx, cy) {
                            let j = choose|j: int|
                                0 <= j < i as int && glyph_paints(
                                    b0,
                                    font@,
                                    s@[j],
                                    x as int + 8 * j,
                                    y as int,
                                    cx,
                                    cy,
                                );
                            assert(str_paints_upto(
                                b0,
                                font@,
                                s@,
                                x as int,
                                y as int,
                                i as int + 1,
                                cx,
                                cy,
                            ));
                            assert(false);
                        }
                    }
                }
            }
        }
        i = i + 1;
    }
}

/// A degenerate line, both endpoints equal, rasterizes to exactly its
/// single point.
pub proof fn lemma_degenerate_line(x0: int, y0: int, cx: int, cy: int)
    ensures
        line_hits(x0, y0, x0, y0, cx, cy) <==> (cx == x0 && cy == y0),
{
}

/// A horizontal segment covers, at its single row, every column from the
/// start inclusive to the end exclusive; the end point itself is hit only
/// when the segment is degenerate.
pub proof fn lemma_horizontal_line(x0: int, y0: int, x1: int, cx: int, cy: int)
    ensures
        line_hits(x0, y0, x1, y0, cx, cy) <==> (cy == y0 && (if x0 == x1 {
            cx == x0
        } else if x0 < x1 {
            x0 <= cx < x1
        } else {
            x1 < cx <= x0
        })),
{
    if x0 == x1 {
    } else {
        let sx = step_dir(x0, x1);
        let dx = delta(x0, x1);
        let j = sx * (cx - x0);
        lemma_unit_mul(sx, cx - x0);
        lemma_unit_mul(sx, j);
        lemma_unit_mul(0, slope_q(dx, 0, j));
        if line_hits(x0, y0, x1, y0, cx, cy) {
        } else {
            if cy == y0 && (if x0 < x1 {
                x0 <= cx < x1
            } else {
                x1 < cx <= x0
            }) {
                assert(0 <= j < dx);
                assert(cx == x0 + j * sx);
            }
        }
    }
}

/// Every rasterized point of a line lies in the bounding box of its
/// endpoints.
pub proof fn lemma_line_hits_in_box(x0: int, y0: int, x1: int, y1: int, cx: int, cy: int)
    requires
        line_hits(x0, y0, x1, y1, cx, cy),
    ensures
        x0 <= cx <= x1 || x1 <= cx <= x0,
        y0 <= cy <= y1 || y1 <= cy <= y0,
{
    let dx = delta(x0, x1);
    let dy = delta(y0, y1);
    let sx = step_dir(x0, x1);
    let sy = step_dir(y0, y1);
    if dx == 0 && dy == 0 {
    } else if dx >= dy {
        let j = sx * (cx - x0);
        lemma_unit_mul(sx, j);
        lemma_slope_q_bounds(dx, dy, j);
        lemma_unit_mul(sy, slope_q(dx, dy, j));
    } else {
        let j = sy * (cy - y0);
        lemma_unit_mul(sy, j);
        lemma_slope_q_bounds(dy, dx, j);
        lemma_unit_mul(sx, slope_q(dy, dx, j));
    }
}
/// The color of the demo pattern's left-hand square on row `cy`: black,
/// red, green and blue from top to bottom, one 64-row band each.
pub open spec fn pattern_square_color(cy: int) -> u32 {
    if cy < 64 {
        0x000000
    } else if cy < 128 {
        0xff0000
    } else if cy < 192 {
        0x00ff00
    } else {
        0x0000ff
    }
}

/// Pixel value after the demo pattern's eight square fills alone: in the
/// 128 columns from `left`, the left half of each 64-row band holds its
/// color and the right half the bitwise complement; everything else keeps
/// its old value.
pub open spec fn pattern_fills_pixel(b0: BitmapView, left: int, cx: int, cy: int) -> u32 {
    if 0 <= cy < 256 && left <= cx < left + 64 {
        pattern_square_color(cy)
    } else if 0 <= cy < 256 && left + 64 <= cx < left + 128 {
        !pattern_square_color(cy)
    } else {
        b0.pixel(cx, cy)
    }
}

/// The x offset of corner `k` of the demo pattern's line figure.
pub open spec fn pattern_corner_x(k: int) -> int {
    if k < 2 {
        0
    } else {
        128
    }
}

/// The y offset of corner `k` of the demo pattern's line figure.
pub open spec fn pattern_corner_y(k: int) -> int {
    if k % 2 == 0 {
        0
    } else {
        128
    }
}

/// Whether the segment from corner `k0` to corner `k1` has both endpoints
/// in range.  A segment with an endpoint out of range is rejected whole by
/// the line rasterizer and draws nothing.
pub open spec fn pattern_segment_in_range(b: BitmapView, left: int, k0: int, k1: int) -> bool {
    &&& b.in_x_range(left + pattern_corner_x(k0))
    &&& b.in_y_range(pattern_corner_y(k0))
    &&& b.in_x_range(left + pattern_corner_x(k1))
    &&& b.in_y_range(pattern_corner_y(k1))
}

/// Whether one of the first `n` segments of the demo pattern's line figure
/// (ordered by starting corner, then ending corner) is drawable and
/// rasterizes through (cx, cy).
pub open spec fn pattern_figure_hits_upto(
    b: BitmapView,
    left: int,
    n: int,
    cx: int,
    cy: int,
) -> bool {
    exists|k0: int, k1: int|
        0 <= k0 < 4 && 0 <= k1 < 4 && 4 * k0 + k1 < n && pattern_segment_in_range(b, left, k0, k1)
            && line_hits(
            left + pattern_corner_x(k0),
            pattern_corner_y(k0),
            left + pattern_corner_x(k1),
            pattern_corner_y(k1),
            cx,
            cy,
        )
}

/// Whether the demo pattern's full line figure paints (cx, cy).
pub open spec fn pattern_figure_hits(b: BitmapView, left: int, cx: int, cy: int) -> bool {
    pattern_figure_hits_upto(b, left, 16, cx, cy)
}

/// The pixel the demo pattern leaves at (cx, cy): the squares are filled
/// first, the white line figure is drawn over them, and the two green
/// sample strings are drawn last, each later stage overwriting the earlier
/// ones where they meet.
pub open spec fn test_pattern_pixel(b0: BitmapView, font: Seq<u8>, cx: int, cy: int) -> u32 {
    let left = b0.width - 129;
    if str_paints(b0, font, "0123456789"@, left, 256, cx, cy) || str_paints(
        b0,
        font,
        "ABCDEF"@,
        left,
        272,
        cx,
        cy,
    ) {
        0x00ff00
    } else if pattern_figure_hits(b0, left, cx, cy) {
        0xffffff
    } else {
        pattern_fills_pixel(b0, left, cx, cy)
    }
}

/// Paint the demo pattern along the right edge of the surface: four rows of
/// a color square beside its complement, the square-and-diagonals line
/// figure in white over them, and two rows of green sample text beneath.
/// The pattern needs a surface at least 129 pixels wide and 256 pixels
/// tall whose line stride falls at most one short of the width; with that
/// much the fills always succeed, while figure segments whose right-hand
/// endpoint the stride cuts off are silently skipped.  Every pixel becomes
/// exactly what `test_pattern_pixel` says; everything outside the columns
/// `[width - 129, width - 1]` and the rows `[0, 288)` is left untouched.
#[verifier::loop_isolation(false)]
pub fn draw_test_pattern<T: Bitmap>(buf: &mut T, font: &[u8])
    requires
        old(buf).bm().wf(),
        old(buf).bm().width >= 129,
        old(buf).bm().pixels_per_line >= old(buf).bm().width - 1,
        old(buf).bm().height >= 256,
    ensures
        final(buf).bm().wf(),
        final(buf).bm().same_geometry(old(buf).bm()),
        forall|cx: int, cy: int|
            0 <= cx < old(buf).bm().pixels_per_line && 0 <= cy < old(buf).bm().height
                ==> final(buf).bm().pixel(cx, cy) == test_pattern_pixel(
                old(buf).bm(),
                font@,
                cx,
                cy,
            ),
        forall|cx: int, cy: int|
            0 <= cx < old(buf).bm().pixels_per_line && 0 <= cy < old(buf).bm().height && (cx
                < old(buf).bm().width - 129 || cx > old(buf).bm().width - 1 || cy >= 288)
                ==> final(buf).bm().pixel(cx, cy) == old(buf).bm().pixel(cx, cy),
{
    let ghost b0 = buf.bm();
    let left: i64 = buf.width() - 129;
    let ghost leftg = left as int;
    let mut i: usize = 0;
    while i < 4
        invariant
            i <= 4,
            buf.bm().wf(),
            buf.bm().same_geometry(b0),
            forall|cx: int, cy: int|
                0 <= cx < b0.pixels_per_line && 0 <= cy < b0.height ==> buf.bm().pixel(cx, cy) == (
                if 0 <= cy < 64 * (i as int) && leftg <= cx < leftg + 64 {
                    pattern_square_color(cy)
                } else if 0 <= cy < 64 * (i as int) && leftg + 64 <= cx < leftg + 128 {
                    !pattern_square_color(cy)
                } else {
                    b0.pixel(cx, cy)
                }),
        decreases 4 - i,
    {
        let c: u32 = if i == 0 {
            0x000000
        } else if i == 1 {
            0xff0000
        } else if i == 2 {
            0x00ff00
        } else {
            0x0000ff
        };
        let y: i64 = (i as i64) * 64;
        let ghost bp = buf.bm();
        let filled_l = fill_rect(buf, c, left, y, 64, 64);
        let filled_r = fill_rect(buf, !c, left + 64, y, 64, 64);
        proof {
            assert(filled_l is Ok && filled_r is Ok);
            assert forall|cy: int| 64 * (i as int) <= cy < 64 * (i as int) + 64 implies c
                == pattern_square_color(cy) by {
                if i == 0 {
                } else if i == 1 {
                } else if i == 2 {
                }
            }
            assert forall|cx: int, cy: int|
                0 <= cx < b0.pixels_per_line && 0 <= cy < b0.height implies buf.bm().pixel(cx, cy)
                == (if 0 <= cy < 64 * (i as int) + 64 && leftg <= cx < leftg + 64 {
                pattern_square_color(cy)
            } else if 0 <= cy < 64 * (i as int) + 64 && leftg + 64 <= cx < leftg + 128 {
                !pattern_square_color(cy)
            } else {
                b0.pixel(cx, cy)
            }) by {
                if in_rect(leftg + 64, y as int, 64, 64, cx, cy) {
                    assert(buf.bm().pixel(cx, cy) == !c);
                } else if in_rect(leftg, y as int, 64, 64, cx, cy) {
                    assert(buf.bm().pixel(cx, cy) == c);
                } else {
                    assert(buf.bm().pixel(cx, cy) == bp.pixel(cx, cy));
                }
            }
        }
        i = i + 1;
    }
    let mut k: usize = 0;
    while k < 16
        invariant
            k <= 16,
            buf.bm().wf(),
            buf.bm().same_geometry(b0),
            forall|cx: int, cy: int|
                0 <= cx < b0.pixels_per_line && 0 <= cy < b0.height ==> buf.bm().pixel(cx, cy) == (
                if pattern_figure_hits_upto(b0, leftg, k as int, cx, cy) {
                    0xffffffu32
                } else {
                    pattern_fills_pixel(b0, leftg, cx, cy)
                }),
        decreases 16 - k,
    {
        let k0: usize = k / 4;
        let k1: usize = k % 4;
        let x0r: i64 = if k0 < 2 {
            0
        } else {
            128
        };
        let y0r: i64 = if k0 % 2 == 0 {
            0
        } else {
            128
        };
        let x1r: i64 = if k1 < 2 {
            0
        } else {
            128
        };
        let y1r: i64 = if k1 % 2 == 0 {
            0
        } else {
            128
        };
        proof {
            assert(4 * (k0 as int) + (k1 as int) == k as int);
            assert(x0r as int == pattern_corner_x(k0 as int));
            assert(y0r as int == pattern_corner_y(k0 as int));
            assert(x1r as int == pattern_corner_x(k1 as int));
            assert(y1r as int == pattern_corner_y(k1 as int));
        }
        let ghost bprev = buf.bm();
        let drawn = draw_line(buf, 0xffffff, left + x0r, y0r, left + x1r, y1r);
        proof {
            assert(bprev.x_extent() == b0.x_extent());
            assert(drawn is Ok <==> pattern_segment_in_range(b0, leftg, k0 as int, k1 as int));
            assert forall|cx: int, cy: int|
                0 <= cx < b0.pixels_per_line && 0 <= cy < b0.height implies buf.bm().pixel(cx, cy)
                == (if pattern_figure_hits_upto(b0, leftg, k as int + 1, cx, cy) {
                0xffffffu32
            } else {
                pattern_fills_pixel(b0, leftg, cx, cy)
            }) by {
                let hit_here = line_hits(
                    leftg + pattern_corner_x(k0 as int),
                    pattern_corner_y(k0 as int),
                    leftg + pattern_corner_x(k1 as int),
                    pattern_corner_y(k1 as int),
                    cx,
                    cy,
                );
                if drawn is Ok && hit_here {
                    assert(buf.bm().pixel(cx, cy) == 0xffffffu32);
                    assert(pattern_segment_in_range(b0, leftg, k0 as int, k1 as int));
                    assert(pattern_figure_hits_upto(b0, leftg, k as int + 1, cx, cy));
                } else {
                    assert(buf.bm().pixel(cx, cy) == bprev.pixel(cx, cy));
                    if pattern_figure_hits_upto(b0, leftg, k as int + 1, cx, cy) {
                        let (j0, j1) = choose|j0: int, j1: int|
                            0 <= j0 < 4 && 0 <= j1 < 4 && 4 * j0 + j1 < k as int + 1
                                && pattern_segment_in_range(b0, leftg, j0, j1) && line_hits(
                                leftg + pattern_corner_x(j0),
                                pattern_corner_y(j0),
                                leftg + pattern_corner_x(j1),
                                pattern_corner_y(j1),
                                cx,
                                cy,
                            );
                        assert(4 * j0 + j1 < k as int);
                        assert(pattern_figure_hits_upto(b0, leftg, k as int, cx, cy));
                    } else {
                        if pattern_figure_hits_upto(b0, leftg, k as int, cx, cy) {
                            let (j0, j1) = choose|j0: int, j1: int|
                                0 <= j0 < 4 && 0 <= j1 < 4 && 4 * j0 + j1 < k as int
                                    && pattern_segment_in_range(b0, leftg, j0, j1) && line_hits(
                                    leftg + pattern_corner_x(j0),
                                    pattern_corner_y(j0),
                                    leftg + pattern_corner_x(j1),
                                    pattern_corner_y(j1),
                                    cx,
                                    cy,
                                );
                            assert(pattern_figure_hits_upto(b0, leftg, k as int + 1, cx, cy));
                            assert(false);
                        }
                    }
                }
            }
        }
        k = k + 1;
    }
    let ghost bprev1 = buf.bm();
    draw_str_fg(buf, left, 256, 0x00ff00, "0123456789", font);
    proof {
        assert(bprev1.x_extent() == b0.x_extent());
        assert forall|cx: int, cy: int|
            str_paints(bprev1, font@, "0123456789"@, leftg, 256, cx, cy) == str_paints(
            b0,
            font@,
            "0123456789"@,
            leftg,
            256,
            cx,
            cy,
        ) by {
            if str_paints(bprev1, font@, "0123456789"@, leftg, 256, cx, cy) {
                let j = choose|j: int|
                    0 <= j < "0123456789"@.len() && glyph_paints(
                        bprev1,
                        font@,
                        "0123456789"@[j],
                        leftg + 8 * j,
                        256,
                        cx,
                        cy,
                    );
                assert(glyph_paints(b0, font@, "0123456789"@[j], leftg + 8 * j, 256, cx, cy));
            }
            if str_paints(b0, font@, "0123456789"@, leftg, 256, cx, cy) {
                let j = choose|j: int|
                    0 <= j < "0123456789"@.len() && glyph_paints(
                        b0,
                        font@,
                        "0123456789"@[j],
                        leftg + 8 * j,
                        256,
                        cx,
                        cy,
                    );
                assert(glyph_paints(bprev1, font@, "0123456789"@[j], leftg + 8 * j, 256, cx, cy));
            }
        }
        assert forall|cx: int, cy: int|
            0 <= cx < b0.pixels_per_line && 0 <= cy < b0.height implies buf.bm().pixel(cx, cy) == (
            if str_paints(b0, font@, "0123456789"@, leftg, 256, cx, cy) {
            0x00ff00u32
        } else if pattern_figure_hits(b0, leftg, cx, cy) {
            0xffffffu32
        } else {
            pattern_fills_pixel(b0, leftg, cx, cy)
        }) by {
            if str_paints(bprev1, font@, "0123456789"@, leftg, 256, cx, cy) {
                assert(buf.bm().pixel(cx, cy) == 0x00ff00u32);
            } else {
                assert(buf.bm().pixel(cx, cy) == bprev1.pixel(cx, cy));
            }
        }
    }
    let ghost bprev2 = buf.bm();
    draw_str_fg(buf, left, 272, 0x00ff00, "ABCDEF", font);
    proof {
        assert(bprev2.x_extent() == b0.x_extent());
        assert forall|cx: int, cy: int|
            str_paints(bprev2, font@, "ABCDEF"@, leftg, 272, cx, cy) == str_paints(
            b0,
            font@,
            "ABCDEF"@,
            leftg,
            272,
            cx,
            cy,
        ) by {
            if str_paints(bprev2, font@, "ABCDEF"@, leftg, 272, cx, cy) {
                let j = choose|j: int|
                    0 <= j < "ABCDEF"@.len() && glyph_paints(
                        bprev2,
                        font@,
                        "ABCDEF"@[j],
                        leftg + 8 * j,
                        272,
                        cx,
                        cy,
                    );
                assert(glyph_paints(b0, font@, "ABCDEF"@[j], leftg + 8 * j, 272, cx, cy));
            }
            if str_paints(b0, font@, "ABCDEF"@, leftg, 272, cx, cy) {
                let j = choose|j: int|
                    0 <= j < "ABCDEF"@.len() && glyph_paints(
                        b0,
                        font@,
                        "ABCDEF"@[j],
                        leftg + 8 * j,
                        272,
                        cx,
                        cy,
                    );
                assert(glyph_paints(bprev2, font@, "ABCDEF"@[j], leftg + 8 * j, 272, cx, cy));
            }
        }
        assert forall|cx: int, cy: int|
            0 <= cx < b0.pixels_per_line && 0 <= cy < b0.height implies buf.bm().pixel(cx, cy)
            == test_pattern_pixel(b0, font@, cx, cy) by {
            if str_paints(bprev2, font@, "ABCDEF"@, leftg, 272, cx, cy) {
                assert(buf.bm().pixel(cx, cy) == 0x00ff00u32);
            } else {
                assert(buf.bm().pixel(cx, cy) == bprev2.pixel(cx, cy));
            }
        }
        reveal_strlit("0123456789");
        reveal_strlit("ABCDEF");
        assert forall|cx: int, cy: int|
            0 <= cx < b0.pixels_per_line && 0 <= cy < b0.height && (cx < leftg || cx > leftg + 128
                || cy >= 288) implies buf.bm().pixel(cx, cy) == b0.pixel(cx, cy) by {
            if str_paints(b0, font@, "0123456789"@, leftg, 256, cx, cy) {
                let j = choose|j: int|
                    0 <= j < "0123456789"@.len() && glyph_paints(
                        b0,
                        font@,
                        "0123456789"@[j],
                        leftg + 8 * j,
                        256,
                        cx,
                        cy,
                    );
                assert(leftg <= cx <= leftg + 128 && cy < 288);
            } else if str_paints(b0, font@, "ABCDEF"@, leftg, 272, cx, cy) {
                let j = choose|j: int|
                    0 <= j < "ABCDEF"@.len() && glyph_paints(
                        b0,
                        font@,
                        "ABCDEF"@[j],
                        leftg + 8 * j,
                        272,
                        cx,
                        cy,
                    );
                assert(leftg <= cx <= leftg + 128 && cy < 288);
            } else if pattern_figure_hits(b0, leftg, cx, cy) {
                let (j0, j1) = choose|j0: int, j1: int|
                    0 <= j0 < 4 && 0 <= j1 < 4 && 4 * j0 + j1 < 16 && pattern_segment_in_range(
                        b0,
                        leftg,
                        j0,
                        j1,
                    ) && line_hits(
                        leftg + pattern_corner_x(j0),
                        pattern_corner_y(j0),
                        leftg + pattern_corner_x(j1),
                        pattern_corner_y(j1),
                        cx,
                        cy,
                    );
                lemma_line_hits_in_box(
                    leftg + pattern_corner_x(j0),
                    pattern_corner_y(j0),
                    leftg + pattern_corner_x(j1),
                    pattern_corner_y(j1),
                    cx,
                    cy,
                );
            }
        }
    }
}

} // verus!
