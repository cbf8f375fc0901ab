//! Straight lines between two pixels, traced with Bresenham's error-term
//! stepping in all eight directions.

use vstd::prelude::*;

use crate::framebuffer::{lemma_set_color_reads_back, Framebuffer, FramebufferView};

verus! {

/// The points visited from (x, y) on the way to (tx, ty): the current point,
/// then, while the target is not reached, one step of Bresenham's method.
/// The error term `err` decides whether x, y or both advance. `fuel` bounds
/// the number of points; it is chosen large enough that the target is always
/// reached.
pub open spec fn line_trace(
    tx: int,
    ty: int,
    dx: int,
    dy: int,
    sx: int,
    sy: int,
    x: int,
    y: int,
    err: int,
    fuel: nat,
) -> Seq<(int, int)>
    decreases fuel,
{
    if fuel == 0 {
        seq![]
    } else if x == tx && y == ty {
        seq![(x, y)]
    } else {
        let e2 = 2 * err;
        let step_x = e2 > -dy;
        let step_y = e2 < dx;
        let nx = if step_x { x + sx } else { x };
        let ny = if step_y { y + sy } else { y };
        let nerr = err - (if step_x { dy } else { 0 }) + (if step_y { dx } else { 0 });
        seq![(x, y)] + line_trace(tx, ty, dx, dy, sx, sy, nx, ny, nerr, (fuel - 1) as nat)
    }
}

pub open spec fn abs_diff(a: int, b: int) -> int {
    if a <= b { b - a } else { a - b }
}

/// A coordinate as the line algorithm sees it: truncated to 32 signed bits.
pub open spec fn coord(v: usize) -> int {
    (v as i32) as int
}

/// The direction of travel along one axis, decided on the untruncated
/// coordinates.
pub open spec fn step_dir(from: usize, to: usize) -> int {
    if from < to { 1 } else { -1 }
}

/// Truncating both coordinates keeps their order, so that stepping in the
/// direction `step_dir` reaches the truncated target.
pub open spec fn same_order(from: usize, to: usize) -> bool {
    &&& coord(from) < coord(to) ==> from < to
    &&& coord(to) < coord(from) ==> to <= from
}

/// The points of the line from (x1, y1) to (x2, y2), in drawing order.
pub open spec fn line_points(x1: usize, y1: usize, x2: usize, y2: usize) -> Seq<(int, int)> {
    let dx = abs_diff(coord(x1), coord(x2));
    let dy = abs_diff(coord(y1), coord(y2));
    line_trace(
        coord(x2),
        coord(y2),
        dx,
        dy,
        step_dir(x1, x2),
        step_dir(y1, y2),
        coord(x1),
        coord(y1),
        dx - dy,
        (dx + dy + 1) as nat,
    )
}

impl FramebufferView {
    /// The picture after the points `pts` are drawn in order with `color`,
    /// each through the pixel whose coordinates are the point's coordinates
    /// converted to `usize`.
    pub open spec fn with_points(self, pts: Seq<(int, int)>, color: u32) -> FramebufferView
        decreases pts.len(),
    {
        if pts.len() == 0 {
            self
        } else {
            let p = pts.last();
            self.with_points(pts.drop_last(), color).with_pixel(
                (p.0 as usize) as int,
                (p.1 as usize) as int,
                color,
            )
        }
    }
}

/// Drawing points keeps the picture's shape and drawing colour.
pub proof fn lemma_with_points_shape(v: FramebufferView, pts: Seq<(int, int)>, color: u32)
    requires
        v.wf(),
    ensures
        v.with_points(pts, color).wf(),
        v.with_points(pts, color).width == v.width,
        v.with_points(pts, color).height == v.height,
        v.with_points(pts, color).current_color == v.current_color,
    decreases pts.len(),
{
    if pts.len() > 0 {
        let p = pts.last();
        lemma_with_points_shape(v, pts.drop_last(), color);
        lemma_set_color_reads_back(
            v.with_points(pts.drop_last(), color),
            (p.0 as usize) as int,
            (p.1 as usize) as int,
            color,
        );
    }
}

/// Every point drawn that falls inside the picture ends up in the drawing
/// colour.
pub proof fn lemma_with_points_covers(v: FramebufferView, pts: Seq<(int, int)>, color: u32, k: int)
    requires
        v.wf(),
        0 <= k < pts.len(),
        v.in_bounds((pts[k].0 as usize) as int, (pts[k].1 as usize) as int),
    ensures
        v.with_points(pts, color).pixel((pts[k].0 as usize) as int, (pts[k].1 as usize) as int)
            == color,
    decreases pts.len(),
{
    let p = pts.last();
    let init = pts.drop_last();
    let before = v.with_points(init, color);
    lemma_with_points_shape(v, init, color);
    lemma_set_color_reads_back(before, (p.0 as usize) as int, (p.1 as usize) as int, color);
    let q = ((pts[k].0 as usize) as int, (pts[k].1 as usize) as int);
    if q != ((p.0 as usize) as int, (p.1 as usize) as int) {
        assert(k < pts.len() - 1);
        assert(init[k] == pts[k]);
        lemma_with_points_covers(v, init, color, k);
        assert(before.with_pixel((p.0 as usize) as int, (p.1 as usize) as int, color).pixel(
            q.0,
            q.1,
        ) == before.pixel(q.0, q.1));
    }
}

/// Position reached after `k` steps from `a` in direction `s`.
pub open spec fn advance(a: int, s: int, k: int) -> int {
    if s == 1 { a + k } else { a - k }
}

/// The state of the tracer after kx steps along x and ky steps along y.
pub open spec fn trace_state_ok(
    a: int,
    b: int,
    dx: int,
    dy: int,
    sx: int,
    sy: int,
    kx: int,
    ky: int,
    x: int,
    y: int,
    err: int,
) -> bool {
    &&& sx == 1 || sx == -1
    &&& sy == 1 || sy == -1
    &&& 0 <= kx <= dx
    &&& 0 <= ky <= dy
    &&& x == advance(a, sx, kx)
    &&& y == advance(b, sy, ky)
    &&& err == dx * (1 + ky) - dy * (1 + kx)
    &&& -3 * dy <= 2 * err <= 3 * dx
}

/// One step of the tracer keeps its state valid, never passes the target,
/// and advances along at least one axis.
pub proof fn lemma_trace_step(
    a: int,
    b: int,
    dx: int,
    dy: int,
    sx: int,
    sy: int,
    kx: int,
    ky: int,
    x: int,
    y: int,
    err: int,
)
    requires
        trace_state_ok(a, b, dx, dy, sx, sy, kx, ky, x, y, err),
        !(kx == dx && ky == dy),
    ensures
        ({
            let e2 = 2 * err;
            let step_x = e2 > -dy;
            let step_y = e2 < dx;
            let nkx = if step_x { kx + 1 } else { kx };
            let nky = if step_y { ky + 1 } else { ky };
            let nx = if step_x { x + sx } else { x };
            let ny = if step_y { y + sy } else { y };
            let nerr = err - (if step_x { dy } else { 0 }) + (if step_y { dx } else { 0 });
            &&& step_x || step_y
            &&& trace_state_ok(a, b, dx, dy, sx, sy, nkx, nky, nx, ny, nerr)
        }),
{
    let e2 = 2 * err;
    if kx == dx {
        assert(dx * (1 + ky) <= dx * dy) by (nonlinear_arith)
            requires
                0 <= dx,
                1 + ky <= dy,
        ;
        assert(dy * (1 + dx) == dy + dx * dy) by (nonlinear_arith);
    }
    if ky == dy {
        assert(dy * (1 + kx) <= dy * dx) by (nonlinear_arith)
            requires
                0 <= dy,
                1 + kx <= dx,
        ;
        assert(dx * (1 + dy) == dx + dx * dy) by (nonlinear_arith);
    }
    assert(dy * (1 + (kx + 1)) == dy * (1 + kx) + dy) by (nonlinear_arith);
    assert(dx * (1 + (ky + 1)) == dx * (1 + ky) + dx) by (nonlinear_arith);
}

/// What the trace from a valid state looks like: it starts at the current
/// point, ends at the target, moves by one pixel at a time towards the target
/// and stays between the current point and the target.
pub proof fn lemma_trace_shape(
    a: int,
    b: int,
    dx: int,
    dy: int,
    sx: int,
    sy: int,
    kx: int,
    ky: int,
    x: int,
    y: int,
    err: int,
    fuel: nat,
)
    requires
        trace_state_ok(a, b, dx, dy, sx, sy, kx, ky, x, y, err),
        fuel >= (dx - kx) + (dy - ky) + 1,
    ensures
        ({
            let tx = advance(a, sx, dx);
            let ty = advance(b, sy, dy);
            let t = line_trace(tx, ty, dx, dy, sx, sy, x, y, err, fuel);
            &&& t.len() >= 1
            &&& t.len() <= (dx - kx) + (dy - ky) + 1
            &&& t[0] == (x, y)
            &&& t.last() == (tx, ty)
            &&& forall|i: int|
                0 <= i < t.len() ==> exists|jx: int, jy: int|
                    kx <= jx <= dx && ky <= jy <= dy && #[trigger] t[i] == (
                        advance(a, sx, jx),
                        advance(b, sy, jy),
                    )
            &&& forall|i: int|
                0 <= i < t.len() - 1 ==> {
                    let p = #[trigger] t[i];
                    let q = t[i + 1];
                    &&& (q.0 == p.0 || q.0 == p.0 + sx)
                    &&& (q.1 == p.1 || q.1 == p.1 + sy)
                    &&& q != p
                }
        }),
    decreases fuel,
{
    let tx = advance(a, sx, dx);
    let ty = advance(b, sy, dy);
    let t = line_trace(tx, ty, dx, dy, sx, sy, x, y, err, fuel);
    if kx == dx && ky == dy {
        assert(t =~= seq![(x, y)]);
        assert(t[0] == (advance(a, sx, kx), advance(b, sy, ky)));
    } else {
        assert(!(x == tx && y == ty));
        lemma_trace_step(a, b, dx, dy, sx, sy, kx, ky, x, y, err);
        let e2 = 2 * err;
        let step_x = e2 > -dy;
        let step_y = e2 < dx;
        let nkx = if step_x { kx + 1 } else { kx };
        let nky = if step_y { ky + 1 } else { ky };
        let nx = if step_x { x + sx } else { x };
        let ny = if step_y { y + sy } else { y };
        let nerr = err - (if step_x { dy } else { 0 }) + (if step_y { dx } else { 0 });
        let rest = line_trace(tx, ty, dx, dy, sx, sy, nx, ny, nerr, (fuel - 1) as nat);
        lemma_trace_shape(a, b, dx, dy, sx, sy, nkx, nky, nx, ny, nerr, (fuel - 1) as nat);
        assert(t == seq![(x, y)] + rest);
        assert(t[0] == (advance(a, sx, kx), advance(b, sy, ky)));
        assert forall|i: int| 0 <= i < t.len() implies exists|jx: int, jy: int|
            kx <= jx <= dx && ky <= jy <= dy && #[trigger] t[i] == (
                advance(a, sx, jx),
                advance(b, sy, jy),
            ) by {
            if i == 0 {
                assert(t[i] == (advance(a, sx, kx), advance(b, sy, ky)));
            } else {
                assert(t[i] == rest[i - 1]);
                let (jx, jy) = choose|jx: int, jy: int|
                    nkx <= jx <= dx && nky <= jy <= dy && #[trigger] rest[i - 1] == (
                        advance(a, sx, jx),
                        advance(b, sy, jy),
                    );
                assert(kx <= jx <= dx && ky <= jy <= dy);
            }
        }
        assert forall|i: int| 0 <= i < t.len() - 1 implies {
            let p = #[trigger] t[i];
            let q = t[i + 1];
            &&& (q.0 == p.0 || q.0 == p.0 + sx)
            &&& (q.1 == p.1 || q.1 == p.1 + sy)
            &&& q != p
        } by {
            if i == 0 {
                assert(t[1] == rest[0]);
            } else {
                assert(t[i] == rest[i - 1]);
                assert(t[i + 1] == rest[i]);
            }
        }
    }
}

/// Along the longer axis the tracer advances at every step, so the trace
/// from a valid state has one point per remaining step along that axis, plus
/// one.
pub proof fn lemma_trace_len(
    a: int,
    b: int,
    dx: int,
    dy: int,
    sx: int,
    sy: int,
    kx: int,
    ky: int,
    x: int,
    y: int,
    err: int,
    fuel: nat,
)
    requires
        trace_state_ok(a, b, dx, dy, sx, sy, kx, ky, x, y, err),
        fuel >= (dx - kx) + (dy - ky) + 1,
        dx >= dy ==> 2 * err > -dy || (kx == dx && ky == dy),
        dx == dy ==> err == 0,
        dy > dx ==> 2 * err < dx,
    ensures
        line_trace(
            advance(a, sx, dx),
            advance(b, sy, dy),
            dx,
            dy,
            sx,
            sy,
            x,
            y,
            err,
            fuel,
        ).len() == if dx >= dy {
            dx - kx + 1
        } else {
            dy - ky + 1
        },
    decreases fuel,
{
    let tx = advance(a, sx, dx);
    let ty = advance(b, sy, dy);
    if !(kx == dx && ky == dy) {
        assert(!(x == tx && y == ty));
        lemma_trace_step(a, b, dx, dy, sx, sy, kx, ky, x, y, err);
        let e2 = 2 * err;
        let step_x = e2 > -dy;
        let step_y = e2 < dx;
        let nkx = if step_x { kx + 1 } else { kx };
        let nky = if step_y { ky + 1 } else { ky };
        let nx = if step_x { x + sx } else { x };
        let ny = if step_y { y + sy } else { y };
        let nerr = err - (if step_x { dy } else { 0 }) + (if step_y { dx } else { 0 });
        if dx >= dy && dy > 0 && kx == dx {
            assert(dx * (1 + ky) <= dx * dy) by (nonlinear_arith)
                requires
                    0 <= dx,
                    1 + ky <= dy,
            ;
            assert(dy * (1 + dx) == dy + dx * dy) by (nonlinear_arith);
        }
        if dy > dx && ky == dy {
            assert(dy * (1 + kx) <= dy * dx) by (nonlinear_arith)
                requires
                    0 <= dy,
                    1 + kx <= dx,
            ;
            assert(dx * (1 + dy) == dx + dx * dy) by (nonlinear_arith);
        }
        lemma_trace_len(a, b, dx, dy, sx, sy, nkx, nky, nx, ny, nerr, (fuel - 1) as nat);
    }
}

/// The shape of a line: it starts at its first end and finishes at its
/// second; each point after the first moves one pixel along x, along y or
/// both, always towards the second end; every point lies in the rectangle
/// spanned by the two ends; and there is one point per pixel along the longer
/// axis.
pub proof fn lemma_line_shape(x1: usize, y1: usize, x2: usize, y2: usize)
    requires
        same_order(x1, x2),
        same_order(y1, y2),
    ensures
        ({
            let pts = line_points(x1, y1, x2, y2);
            let (a1, b1, a2, b2) = (coord(x1), coord(y1), coord(x2), coord(y2));
            &&& pts.len() == (if abs_diff(a1, a2) >= abs_diff(b1, b2) {
                abs_diff(a1, a2)
            } else {
                abs_diff(b1, b2)
            }) + 1
            &&& pts[0] == (a1, b1)
            &&& pts.last() == (a2, b2)
            &&& forall|i: int|
                0 <= i < pts.len() ==> {
                    let p = #[trigger] pts[i];
                    &&& (a1 <= p.0 <= a2 || a2 <= p.0 <= a1)
                    &&& (b1 <= p.1 <= b2 || b2 <= p.1 <= b1)
                }
            &&& forall|i: int|
                0 <= i < pts.len() - 1 ==> {
                    let p = #[trigger] pts[i];
                    let q = pts[i + 1];
                    &&& (q.0 == p.0 || q.0 == p.0 + step_dir(x1, x2))
                    &&& (q.1 == p.1 || q.1 == p.1 + step_dir(y1, y2))
                    &&& q != p
                }
        }),
{
    let (a1, b1, a2, b2) = (coord(x1), coord(y1), coord(x2), coord(y2));
    let dx = abs_diff(a1, a2);
    let dy = abs_diff(b1, b2);
    let sx = step_dir(x1, x2);
    let sy = step_dir(y1, y2);
    assert(dx * (1 + 0int) - dy * (1 + 0int) == dx - dy) by (nonlinear_arith);
    assert(a2 == advance(a1, sx, dx));
    assert(b2 == advance(b1, sy, dy));
    lemma_trace_shape(a1, b1, dx, dy, sx, sy, 0, 0, a1, b1, dx - dy, (dx + dy + 1) as nat);
    lemma_trace_len(a1, b1, dx, dy, sx, sy, 0, 0, a1, b1, dx - dy, (dx + dy + 1) as nat);
    let pts = line_points(x1, y1, x2, y2);
    assert forall|i: int| 0 <= i < pts.len() implies {
        let p = #[trigger] pts[i];
        &&& (a1 <= p.0 <= a2 || a2 <= p.0 <= a1)
        &&& (b1 <= p.1 <= b2 || b2 <= p.1 <= b1)
    } by {
        let (jx, jy) = choose|jx: int, jy: int|
            0 <= jx <= dx && 0 <= jy <= dy && #[trigger] pts[i] == (
                advance(a1, sx, jx),
                advance(b1, sy, jy),
            );
    }
}

/// Draws the line from (x1, y1) to (x2, y2) with the current colour. The
/// coordinates are truncated to 32 signed bits and the points converted back
/// to `usize`; points outside the picture are skipped.
pub fn draw_line(framebuffer: &mut Framebuffer, x1: usize, y1: usize, x2: usize, y2: usize)
    requires
        old(framebuffer)@.wf(),
        same_order(x1, x2),
        same_order(y1, y2),
    ensures
        final(framebuffer)@.wf(),
        final(framebuffer)@ == old(framebuffer)@.with_points(
            line_points(x1, y1, x2, y2),
            old(framebuffer)@.current_color,
        ),
{
    let a1: i64 = #[verifier::truncate] (x1 as i32) as i64;
    let b1: i64 = #[verifier::truncate] (y1 as i32) as i64;
    let a2: i64 = #[verifier::truncate] (x2 as i32) as i64;
    let b2: i64 = #[verifier::truncate] (y2 as i32) as i64;
    let dx: i64 = if a1 <= a2 { a2 - a1 } else { a1 - a2 };
    let dy: i64 = if b1 <= b2 { b2 - b1 } else { b1 - b2 };
    let sx: i64 = if x1 < x2 { 1 } else { -1 };
    let sy: i64 = if y1 < y2 { 1 } else { -1 };
    let mut err: i64 = dx - dy;
    let mut x: i64 = a1;
    let mut y: i64 = b1;

    let ghost orig = framebuffer@;
    let ghost c = orig.current_color;
    let ghost full = line_points(x1, y1, x2, y2);
    let ghost mut drawn: Seq<(int, int)> = seq![];
    let ghost mut kx: int = 0;
    let ghost mut ky: int = 0;
    let ghost mut fuel: nat = (dx + dy + 1) as nat;
    assert(dx * (1 + 0int) - dy * (1 + 0int) == dx - dy) by (nonlinear_arith);
    assert(a2 == advance(a1 as int, sx as int, dx as int));
    assert(b2 == advance(b1 as int, sy as int, dy as int));
    assert(full == drawn + line_trace(
        a2 as int,
        b2 as int,
        dx as int,
        dy as int,
        sx as int,
        sy as int,
        x as int,
        y as int,
        err as int,
        fuel,
    ));
    loop
        invariant
            framebuffer@.wf(),
            framebuffer@ == orig.with_points(drawn, c),
            framebuffer@.current_color == c,
            c == orig.current_color,
            orig == old(framebuffer)@,
            full == line_points(x1, y1, x2, y2),
            orig.wf(),
            -0x8000_0000 <= a1 < 0x8000_0000,
            -0x8000_0000 <= b1 < 0x8000_0000,
            -0x8000_0000 <= a2 < 0x8000_0000,
            -0x8000_0000 <= b2 < 0x8000_0000,
            dx == abs_diff(a1 as int, a2 as int),
            dy == abs_diff(b1 as int, b2 as int),
            a2 == advance(a1 as int, sx as int, dx as int),
            b2 == advance(b1 as int, sy as int, dy as int),
            trace_state_ok(
                a1 as int,
                b1 as int,
                dx as int,
                dy as int,
                sx as int,
                sy as int,
                kx,
                ky,
                x as int,
                y as int,
                err as int,
            ),
            fuel >= (dx - kx) + (dy - ky) + 1,
            full == drawn + line_trace(
                a2 as int,
                b2 as int,
                dx as int,
                dy as int,
                sx as int,
                sy as int,
                x as int,
                y as int,
                err as int,
                fuel,
            ),
        decreases (dx - kx) + (dy - ky),
    {
        let ghost rest = line_trace(
            a2 as int,
            b2 as int,
            dx as int,
            dy as int,
            sx as int,
            sy as int,
            x as int,
            y as int,
            err as int,
            fuel,
        );
        let ghost before = framebuffer@;
        framebuffer.point(#[verifier::truncate] (x as usize), #[verifier::truncate] (y as usize));
        proof {
            let pushed = drawn.push((x as int, y as int));
            assert(pushed.drop_last() =~= drawn);
            assert(pushed.last() == (x as int, y as int));
            assert(framebuffer@ == orig.with_points(pushed, c));
            drawn = pushed;
        }
        if x == a2 && y == b2 {
            proof {
                assert(rest =~= seq![(x as int, y as int)]);
                assert(full =~= drawn);
            }
            return;
        }
        proof {
            lemma_trace_step(
                a1 as int,
                b1 as int,
                dx as int,
                dy as int,
                sx as int,
                sy as int,
                kx,
                ky,
                x as int,
                y as int,
                err as int,
            );
        }
        let e2: i64 = 2 * err;
        let step_x = e2 > -dy;
        let step_y = e2 < dx;
        let ghost nrest = line_trace(
            a2 as int,
            b2 as int,
            dx as int,
            dy as int,
            sx as int,
            sy as int,
            if step_x { x + sx } else { x as int },
            if step_y { y + sy } else { y as int },
            err - (if step_x { dy as int } else { 0 }) + (if step_y { dx as int } else { 0 }),
            (fuel - 1) as nat,
        );
        proof {
            assert(rest == seq![(x as int, y as int)] + nrest);
            assert(full =~= drawn + nrest);
        }
        if step_x {
            err = err - dy;
            x = x + sx;
            proof {
                kx = kx + 1;
            }
        }
        if step_y {
            err = err + dx;
            y = y + sy;
            proof {
                ky = ky + 1;
            }
        }
        proof {
            fuel = (fuel - 1) as nat;
        }
    }
}

} // verus!
