//! A row-major buffer of 32-bit colours with a current drawing colour.

use vstd::prelude::*;

verus! {

/// Colour every pixel of a new framebuffer starts with.
pub const BACKGROUND_COLOR: u32 = 0x333355;

/// Drawing colour of a new framebuffer.
pub const DEFAULT_DRAW_COLOR: u32 = 0xFFDDDD;

/// The mathematical picture of a framebuffer: its size, its pixels in
/// row-major order, and the colour that `point` draws with.
pub struct FramebufferView {
    pub width: nat,
    pub height: nat,
    pub buffer: Seq<u32>,
    pub current_color: u32,
}

impl FramebufferView {
    /// The buffer holds exactly one colour per pixel.
    pub open spec fn wf(self) -> bool {
        self.buffer.len() == self.width * self.height
    }

    pub open spec fn in_bounds(self, x: int, y: int) -> bool {
        0 <= x < self.width && 0 <= y < self.height
    }

    /// Position in the buffer of pixel (x, y).
    pub open spec fn index_of(self, x: int, y: int) -> int {
        y * self.width + x
    }

    pub open spec fn pixel(self, x: int, y: int) -> u32 {
        self.buffer[self.index_of(x, y)]
    }

    /// The picture after pixel (x, y) is given `color`; a pixel outside the
    /// picture changes nothing.
    pub open spec fn with_pixel(self, x: int, y: int, color: u32) -> FramebufferView {
        if self.in_bounds(x, y) {
            FramebufferView { buffer: self.buffer.update(self.index_of(x, y), color), ..self }
        } else {
            self
        }
    }

    /// The picture after every pixel of the `w` x `h` rectangle whose top-left
    /// corner is (x, y) is given `color`; the parts of the rectangle outside
    /// the picture are ignored.
    pub open spec fn fill_rect(self, x: int, y: int, w: int, h: int, color: u32) -> FramebufferView {
        FramebufferView {
            buffer: Seq::new(
                self.buffer.len(),
                |i: int|
                    if in_rect(i % (self.width as int), i / (self.width as int), x, y, w, h) {
                        color
                    } else {
                        self.buffer[i]
                    },
            ),
            ..self
        }
    }

    pub open spec fn with_current_color(self, color: u32) -> FramebufferView {
        FramebufferView { current_color: color, ..self }
    }
}

/// Pixel (px, py) lies in the `w` x `h` rectangle whose top-left corner is
/// (x, y).
pub open spec fn in_rect(px: int, py: int, x: int, y: int, w: int, h: int) -> bool {
    x <= px < x + w && y <= py < y + h
}

/// A `width` x `height` picture of 32-bit colours.
#[derive(Clone)]
pub struct Framebuffer {
    width: usize,
    height: usize,
    buffer: Vec<u32>,
    current_color: u32,
}

impl View for Framebuffer {
    type V = FramebufferView;

    closed spec fn view(&self) -> FramebufferView {
        FramebufferView {
            width: self.width as nat,
            height: self.height as nat,
            buffer: self.buffer@,
            current_color: self.current_color,
        }
    }
}

impl Framebuffer {
    /// A picture of `width` x `height` pixels, all of the background colour,
    /// drawing in the default colour.
    pub fn new(width: usize, height: usize) -> (fb: Self)
        requires
            width * height <= usize::MAX,
        ensures
            fb@.wf(),
            fb@.width == width,
            fb@.height == height,
            fb@.current_color == DEFAULT_DRAW_COLOR,
            forall|i: int| 0 <= i < fb@.buffer.len() ==> fb@.buffer[i] == BACKGROUND_COLOR,
    {
        let n: usize = width * height;
        let buffer = vec![BACKGROUND_COLOR; n];
        let current_color = DEFAULT_DRAW_COLOR;
        Framebuffer { width, height, buffer, current_color }
    }

    /// Makes `color` the colour that `point` draws with.
    pub fn set_current_color(&mut self, color: u32)
        ensures
            final(self)@ == old(self)@.with_current_color(color),
    {
        self.current_color = color;
    }

    /// Gives pixel (x, y) the colour `color`; a pixel outside the picture is
    /// ignored.
    pub fn set_color(&mut self, x: usize, y: usize, color: u32)
        requires
            old(self)@.wf(),
        ensures
            final(self)@.wf(),
            final(self)@ == old(self)@.with_pixel(x as int, y as int, color),
    {
        let len = self.buffer.len();
        if x < self.width && y < self.height {
            proof {
                lemma_index_in_range(self.width as int, self.height as int, x as int, y as int);
            }
            assert(y * self.width + x < len);
            let index = y * self.width + x;
            self.buffer[index] = color;
        }
    }

    /// Gives pixel (x, y) the current colour.
    pub fn point(&mut self, x: usize, y: usize)
        requires
            old(self)@.wf(),
        ensures
            final(self)@.wf(),
            final(self)@ == old(self)@.with_pixel(x as int, y as int, old(self)@.current_color),
    {
        let c = self.current_color;
        self.set_color(x, y, c);
    }

    /// Fills the `width` x `height` rectangle whose top-left corner is (x, y)
    /// with the current colour, row by row.
    pub fn draw_rectangle(&mut self, x: usize, y: usize, width: usize, height: usize)
        requires
            old(self)@.wf(),
            width == 0 || height == 0 || (x + width - 1 <= usize::MAX && y + height - 1
                <= usize::MAX),
        ensures
            final(self)@.wf(),
            final(self)@ == old(self)@.fill_rect(
                x as int,
                y as int,
                width as int,
                height as int,
                old(self)@.current_color,
            ),
    {
        let ghost orig = self@;
        let ghost c = orig.current_color;
        proof {
            lemma_fill_empty(orig, x as int, y as int, width as int, 0, c);
        }
        for dy in 0..height
            invariant
                self@.wf(),
                width == 0 || height == 0 || (x + width - 1 <= usize::MAX && y + height - 1
                    <= usize::MAX),
                self@ == orig.fill_rect(x as int, y as int, width as int, dy as int, c),
                orig.wf(),
                c == orig.current_color,
        {
            let ghost row_start = self@;
            proof {
                lemma_fill_empty(row_start, x as int, y + dy, 0, 1, c);
            }
            for dx in 0..width
                invariant
                    self@.wf(),
                    dy < height,
                    width == 0 || height == 0 || (x + width - 1 <= usize::MAX && y + height - 1
                        <= usize::MAX),
                    row_start.wf(),
                    row_start.current_color == c,
                    self@ == row_start.fill_rect(x as int, y + dy, dx as int, 1, c),
            {
                proof {
                    lemma_fill_row_extend(row_start, x as int, y + dy, dx as int, c);
                }
                self.point(x + dx, y + dy);
            }
            proof {
                lemma_fill_rows_stack(orig, x as int, y as int, width as int, dy as int, c);
            }
        }
    }

    /// The pixels in row-major order.
    pub fn get_buffer(&self) -> (buf: &[u32])
        ensures
            buf@ == self@.buffer,
    {
        self.buffer.as_slice()
    }
}

/// Reading back a pixel gives the colour last written to it, and writing a
/// pixel leaves every other pixel as it was.
pub proof fn lemma_set_color_reads_back(v: FramebufferView, x: int, y: int, c: u32)
    requires
        v.wf(),
    ensures
        v.with_pixel(x, y, c).wf(),
        v.in_bounds(x, y) ==> v.with_pixel(x, y, c).pixel(x, y) == c,
        forall|px: int, py: int|
            v.in_bounds(px, py) && !(px == x && py == y) ==> #[trigger] v.with_pixel(
                x,
                y,
                c,
            ).pixel(px, py) == v.pixel(px, py),
{
    if v.in_bounds(x, y) {
        lemma_index_in_range(v.width as int, v.height as int, x, y);
    }
    assert forall|px: int, py: int|
        v.in_bounds(px, py) && !(px == x && py == y) implies #[trigger] v.with_pixel(
            x,
            y,
            c,
        ).pixel(px, py) == v.pixel(px, py) by {
        if v.in_bounds(x, y) {
            lemma_index_in_range(v.width as int, v.height as int, px, py);
            lemma_pixel_at_index(v, v.index_of(px, py), x, y);
            lemma_index_of_coords(v.width as int, px, py);
        }
    }
}

/// After a rectangle is filled, each pixel of the picture inside it has the
/// fill colour and each pixel outside it keeps its colour.
pub proof fn lemma_fill_rect_pixels(v: FramebufferView, x: int, y: int, w: int, h: int, c: u32)
    requires
        v.wf(),
    ensures
        v.fill_rect(x, y, w, h, c).wf(),
        forall|px: int, py: int|
            v.in_bounds(px, py) ==> #[trigger] v.fill_rect(x, y, w, h, c).pixel(px, py) == (if in_rect(
                px,
                py,
                x,
                y,
                w,
                h,
            ) {
                c
            } else {
                v.pixel(px, py)
            }),
{
    assert forall|px: int, py: int| v.in_bounds(px, py) implies #[trigger] v.fill_rect(
        x,
        y,
        w,
        h,
        c,
    ).pixel(px, py) == (if in_rect(px, py, x, y, w, h) {
        c
    } else {
        v.pixel(px, py)
    }) by {
        lemma_index_in_range(v.width as int, v.height as int, px, py);
        lemma_index_of_coords(v.width as int, px, py);
    }
}

/// Filling the same rectangle twice with the same colour is filling it once.
pub proof fn lemma_fill_rect_idempotent(v: FramebufferView, x: int, y: int, w: int, h: int, c: u32)
    requires
        v.wf(),
    ensures
        v.fill_rect(x, y, w, h, c).fill_rect(x, y, w, h, c) == v.fill_rect(x, y, w, h, c),
{
    lemma_fill_union(v, x, y, w, h, x, y, w, h, x, y, w, h, c);
}

/// Buffer position `i` of a `w` x `h` picture is pixel (i % w, i / w).
pub proof fn lemma_coords_of_index(w: int, h: int, i: int)
    requires
        0 <= w,
        0 <= h,
        0 <= i < w * h,
    ensures
        w > 0,
        0 <= i % w < w,
        0 <= i / w < h,
        i == (i / w) * w + i % w,
{
    if w <= 0 {
        assert(w * h == 0) by (nonlinear_arith)
            requires
                w == 0,
        ;
    }
    vstd::arithmetic::div_mod::lemma_fundamental_div_mod(i, w);
    vstd::arithmetic::div_mod::lemma_mod_bound(i, w);
    vstd::arithmetic::div_mod::lemma_div_pos_is_pos(i, w);
    vstd::arithmetic::mul::lemma_mul_is_commutative(w, i / w);
    if i / w >= h {
        assert((i / w) * w >= h * w) by (nonlinear_arith)
            requires
                i / w >= h,
                w > 0,
        ;
        vstd::arithmetic::mul::lemma_mul_is_commutative(w, h);
    }
}

/// Pixel (x, y) of a picture of width `w` sits at buffer position y * w + x.
pub proof fn lemma_index_of_coords(w: int, x: int, y: int)
    requires
        0 <= x < w,
    ensures
        (y * w + x) % w == x,
        (y * w + x) / w == y,
{
    vstd::arithmetic::div_mod::lemma_fundamental_div_mod_converse(y * w + x, w, y, x);
}

/// In a well-formed picture, buffer position `i` is pixel (px, py) exactly when
/// i == py * width + px.
pub proof fn lemma_pixel_at_index(v: FramebufferView, i: int, px: int, py: int)
    requires
        v.wf(),
        0 <= i < v.buffer.len(),
        v.in_bounds(px, py),
    ensures
        (i == v.index_of(px, py)) <==> (i % (v.width as int) == px && i / (v.width as int) == py),
{
    lemma_coords_of_index(v.width as int, v.height as int, i);
    lemma_index_of_coords(v.width as int, px, py);
}

/// A rectangle without width or height leaves the picture as it is.
pub proof fn lemma_fill_empty(v: FramebufferView, x: int, y: int, w: int, h: int, c: u32)
    requires
        w <= 0 || h <= 0,
    ensures
        v.fill_rect(x, y, w, h, c) == v,
{
    assert(v.fill_rect(x, y, w, h, c).buffer =~= v.buffer);
}

/// Drawing the pixel just right of a one-row rectangle widens it by one.
pub proof fn lemma_fill_row_extend(v: FramebufferView, x: int, y: int, w: int, c: u32)
    requires
        v.wf(),
        w >= 0,
    ensures
        v.fill_rect(x, y, w, 1, c).with_pixel(x + w, y, c) == v.fill_rect(x, y, w + 1, 1, c),
{
    let a = v.fill_rect(x, y, w, 1, c);
    let b = v.fill_rect(x, y, w + 1, 1, c);
    let r = a.with_pixel(x + w, y, c);
    if v.in_bounds(x + w, y) {
        lemma_index_in_range(v.width as int, v.height as int, x + w, y);
    }
    assert(r.buffer.len() == b.buffer.len());
    assert forall|i: int| 0 <= i < b.buffer.len() implies r.buffer[i] == b.buffer[i] by {
        let wd = v.width as int;
        lemma_coords_of_index(wd, v.height as int, i);
        let px = i % wd;
        let py = i / wd;
        assert(a.buffer[i] == (if in_rect(px, py, x, y, w, 1) { c } else { v.buffer[i] }));
        assert(b.buffer[i] == (if in_rect(px, py, x, y, w + 1, 1) { c } else { v.buffer[i] }));
        if v.in_bounds(x + w, y) {
            lemma_pixel_at_index(v, i, x + w, y);
            if i == v.index_of(x + w, y) {
                assert(r.buffer[i] == c);
            } else {
                assert(r.buffer[i] == a.buffer[i]);
            }
        } else {
            assert(r == a);
            assert(v.in_bounds(px, py));
        }
    }
    assert(r.buffer =~= b.buffer);
}

/// Drawing one more row below a rectangle makes it one row taller.
pub proof fn lemma_fill_rows_stack(v: FramebufferView, x: int, y: int, w: int, h: int, c: u32)
    requires
        h >= 0,
    ensures
        v.fill_rect(x, y, w, h, c).fill_rect(x, y + h, w, 1, c) == v.fill_rect(x, y, w, h + 1, c),
{
    assert(v.fill_rect(x, y, w, h, c).fill_rect(x, y + h, w, 1, c).buffer =~= v.fill_rect(
        x,
        y,
        w,
        h + 1,
        c,
    ).buffer);
}

/// Drawing one pixel is filling the 1 x 1 rectangle at that pixel.
pub proof fn lemma_pixel_is_fill(v: FramebufferView, x: int, y: int, c: u32)
    requires
        v.wf(),
    ensures
        v.with_pixel(x, y, c) == v.fill_rect(x, y, 1, 1, c),
{
    let r = v.with_pixel(x, y, c);
    let f = v.fill_rect(x, y, 1, 1, c);
    if v.in_bounds(x, y) {
        lemma_index_in_range(v.width as int, v.height as int, x, y);
    }
    assert forall|i: int| 0 <= i < f.buffer.len() implies r.buffer[i] == f.buffer[i] by {
        lemma_coords_of_index(v.width as int, v.height as int, i);
        if v.in_bounds(x, y) {
            lemma_pixel_at_index(v, i, x, y);
        }
    }
    assert(r.buffer =~= f.buffer);
}

/// Filling two rectangles one after the other with the same colour is
/// filling a third one that covers, inside the picture, exactly their union.
pub proof fn lemma_fill_union(
    v: FramebufferView,
    x1: int,
    y1: int,
    w1: int,
    h1: int,
    x2: int,
    y2: int,
    w2: int,
    h2: int,
    x3: int,
    y3: int,
    w3: int,
    h3: int,
    c: u32,
)
    requires
        v.wf(),
        forall|px: int, py: int|
            v.in_bounds(px, py) ==> (in_rect(px, py, x3, y3, w3, h3) <==> (in_rect(
                px,
                py,
                x1,
                y1,
                w1,
                h1,
            ) || in_rect(px, py, x2, y2, w2, h2))),
    ensures
        v.fill_rect(x1, y1, w1, h1, c).fill_rect(x2, y2, w2, h2, c) == v.fill_rect(
            x3,
            y3,
            w3,
            h3,
            c,
        ),
{
    let r = v.fill_rect(x1, y1, w1, h1, c).fill_rect(x2, y2, w2, h2, c);
    let f = v.fill_rect(x3, y3, w3, h3, c);
    assert forall|i: int| 0 <= i < f.buffer.len() implies r.buffer[i] == f.buffer[i] by {
        lemma_coords_of_index(v.width as int, v.height as int, i);
        let wd = v.width as int;
        assert(v.in_bounds(i % wd, i / wd));
    }
    assert(r.buffer =~= f.buffer);
}

/// Pixel (x, y) of a `w` x `h` picture lies inside its buffer.
pub proof fn lemma_index_in_range(w: int, h: int, x: int, y: int)
    requires
        0 <= x < w,
        0 <= y < h,
    ensures
        0 <= y * w + x < w * h,
        y * w + x <= w * h - 1,
{
    assert(0 <= y * w) by (nonlinear_arith)
        requires
            0 <= y,
            0 <= w,
    ;
    assert(y * w + x < w * h) by (nonlinear_arith)
        requires
            0 <= x < w,
            0 <= y < h,
    ;
}

} // verus!
