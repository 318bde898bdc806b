use vstd::prelude::*;
use vstd::arithmetic::div_mod::{lemma_fundamental_div_mod, lemma_fundamental_div_mod_converse};
use crate::font::{glyph, glyph_bit, glyph_rows};

verus! {

/// Background colour of a frame.
pub const BACKGROUND: u32 = 0x001122;

/// Fill colour of a static body.
pub const STATIC_COLOR: u32 = 0x444444;

/// Fill colour of a dynamic body.
pub const DYNAMIC_COLOR: u32 = 0xFF6B35;

/// Colour of the dot marking the centre of every drawn shape.
pub const CENTER_DOT: u32 = 0xFFFFFF;

/// A row-major frame buffer of `width` by `height` pixels, one `u32` colour each.
pub struct Renderer {
    pub width: usize,
    pub height: usize,
    buffer: Vec<u32>,
}

/// `buf`, a row-major buffer `w` pixels wide, with each pixel `(px, py)` that
/// `covers` holds of set to `color` and every other pixel kept. Pixel `k` of
/// the buffer is `(k % w, k / w)`.
pub open spec fn painted(buf: Seq<u32>, w: nat, covers: spec_fn(int, int) -> bool, color: u32) -> Seq<u32> {
    Seq::new(buf.len(), |k: int| if covers(k % (w as int), k / (w as int)) { color } else { buf[k] })
}

/// The single point `(x, y)`.
pub open spec fn at_point(x: int, y: int) -> spec_fn(int, int) -> bool {
    |px: int, py: int| px == x && py == y
}

/// The pixels of a filled disc of radius `r` centred on `(cx, cy)`: those
/// whose offsets from the centre lie within `-r ..= r` on both axes and whose
/// squared distance from it is at most `r * r`.
pub open spec fn disc(cx: int, cy: int, r: int) -> spec_fn(int, int) -> bool {
    |px: int, py: int|
        -r <= px - cx <= r && -r <= py - cy <= r && (px - cx) * (px - cx) + (py - cy) * (py - cy) <= r * r
}

/// The pixels of a filled box centred on `(cx, cy)` that reaches `hw`
/// pixels left and right of the centre and `hh` pixels above and below it.
pub open spec fn filled_box(cx: int, cy: int, hw: int, hh: int) -> spec_fn(int, int) -> bool {
    |px: int, py: int| -hw <= px - cx <= hw && -hh <= py - cy <= hh
}

/// The pixels set by the glyph of `ch` with its top-left corner at `(x, y)`.
pub open spec fn char_pixels(ch: char, x: int, y: int) -> spec_fn(int, int) -> bool {
    |px: int, py: int| glyph_bit(ch, py - y, px - x)
}

/// The pixels set by `text` written from `(x, y)`: character `i` has its
/// glyph's top-left corner at `(x + 6 * i, y)`, so the column `px` belongs to
/// character `(px - x) / 6`, at glyph column `(px - x) % 6`.
pub open spec fn text_pixels(text: Seq<char>, x: int, y: int) -> spec_fn(int, int) -> bool {
    |px: int, py: int|
        0 <= px - x && (px - x) / 6 < text.len() && glyph_bit(text[(px - x) / 6], py - y, (px - x) % 6)
}

/// The colour in which a body is filled.
pub open spec fn spec_body_color(is_static: bool) -> u32 {
    if is_static { STATIC_COLOR } else { DYNAMIC_COLOR }
}

/// Static bodies are drawn grey, dynamic ones orange.
pub fn body_color(is_static: bool) -> (r: u32)
    ensures
        r == spec_body_color(is_static),
{
    if is_static { STATIC_COLOR } else { DYNAMIC_COLOR }
}

/// Pixel `k` of a buffer `w` wide and `h` tall lies at `(k % w, k / w)`, inside it.
proof fn lemma_cell(w: int, h: int, k: int)
    requires
        0 <= w,
        0 <= h,
        0 <= k < w * h,
    ensures
        w > 0,
        0 <= k % w < w,
        0 <= k / w < h,
        k == (k / w) * w + k % w,
{
    if w <= 0 {
        assert(w * h == 0) by (nonlinear_arith)
            requires w == 0;
    }
    lemma_fundamental_div_mod(k, w);
    let q = k / w;
    let m = k % w;
    assert(q < h) by (nonlinear_arith)
        requires k == w * q + m, 0 <= m, k < w * h, w > 0;
    assert(0 <= q) by (nonlinear_arith)
        requires k == w * q + m, m < w, 0 <= k, w > 0;
    assert(w * q == q * w) by (nonlinear_arith);
}

/// The pixel `(x, y)` inside a buffer `w` wide and `h` tall is entry `y * w + x`.
proof fn lemma_index(w: int, h: int, x: int, y: int)
    requires
        0 <= x < w,
        0 <= y < h,
    ensures
        0 <= y * w + x < w * h,
        (y * w + x) % w == x,
        (y * w + x) / w == y,
{
    assert(0 <= y * w + x < w * h) by (nonlinear_arith)
        requires 0 <= x < w, 0 <= y < h;
    lemma_fundamental_div_mod_converse(y * w + x, w, y, x);
}

/// Painting the pixels of `p`, then those of `q`, in one colour paints those of either.
proof fn lemma_paint_twice(buf: Seq<u32>, w: nat, p: spec_fn(int, int) -> bool, q: spec_fn(int, int) -> bool, color: u32)
    ensures
        painted(painted(buf, w, p, color), w, q, color)
            == painted(buf, w, |px: int, py: int| p(px, py) || q(px, py), color),
{
    assert(painted(painted(buf, w, p, color), w, q, color)
        =~= painted(buf, w, |px: int, py: int| p(px, py) || q(px, py), color));
}

/// Column `px` of character `i`'s glyph, drawn from `x + 6 * i`, belongs to
/// character `i` of the text in the sense of `text_pixels`.
proof fn lemma_text_column(text: Seq<char>, x: int, y: int, i: int, px: int, py: int)
    requires
        0 <= i < text.len(),
    ensures
        (text_pixels(text, x, y)(px, py) && (px - x) / 6 < i) || char_pixels(text[i], x + 6 * i, y)(px, py)
            <==> text_pixels(text, x, y)(px, py) && (px - x) / 6 < i + 1,
{
    let d = px - x;
    if 0 <= d - 6 * i < 6 {
        lemma_fundamental_div_mod_converse(d, 6, i, d - 6 * i);
    }
    if 0 <= d {
        lemma_fundamental_div_mod(d, 6);
    }
}

/// A coordinate offset of at most `2^32` in size squares to at most `2^64`.
proof fn lemma_square_bound(a: int)
    requires
        -0x1_0000_0000 <= a <= 0x1_0000_0000,
    ensures
        0 <= a * a <= 0x1_0000_0000_0000_0000,
{
    assert(0 <= a * a <= 0x1_0000_0000_0000_0000) by (nonlinear_arith)
        requires -0x1_0000_0000 <= a <= 0x1_0000_0000;
}

impl Renderer {
    /// The colours of the pixels, row by row from the top.
    pub closed spec fn pixels(&self) -> Seq<u32> {
        self.buffer@
    }

    /// The number of pixels in a row.
    pub closed spec fn spec_width(&self) -> nat {
        self.width as nat
    }

    /// The number of rows.
    pub closed spec fn spec_height(&self) -> nat {
        self.height as nat
    }

    /// The buffer holds exactly one entry per pixel.
    pub open spec fn wf(&self) -> bool {
        self.pixels().len() == self.spec_width() * self.spec_height()
    }

    /// A `width` by `height` frame with every pixel black.
    pub fn new(width: usize, height: usize) -> (r: Self)
        requires
            width * height <= usize::MAX,
        ensures
            r.wf(),
            r.spec_width() == width,
            r.spec_height() == height,
            r.pixels() == Seq::new((width * height) as nat, |k: int| 0u32),
    {
        let n: usize = width * height;
        let mut buffer: Vec<u32> = Vec::new();
        while buffer.len() < n
            invariant
                buffer.len() <= n,
                forall|k: int| 0 <= k < buffer.len() ==> buffer@[k] == 0u32,
            decreases n - buffer.len(),
        {
            buffer.push(0);
        }
        let r = Renderer { width, height, buffer };
        assert(r.pixels() =~= Seq::new((width * height) as nat, |k: int| 0u32));
        r
    }

    /// Sets every pixel to `color`.
    pub fn clear(&mut self, color: u32)
        ensures
            final(self).spec_width() == old(self).spec_width(),
            final(self).spec_height() == old(self).spec_height(),
            final(self).pixels() == Seq::new(old(self).pixels().len(), |k: int| color),
    {
        let n = self.buffer.len();
        let mut i: usize = 0;
        while i < n
            invariant
                n == self.buffer.len(),
                n == old(self).pixels().len(),
                self.width == old(self).width,
                self.height == old(self).height,
                i <= n,
                forall|k: int| 0 <= k < i ==> self.buffer@[k] == color,
            decreases n - i,
        {
            self.buffer.set(i, color);
            i = i + 1;
        }
        assert(self.pixels() =~= Seq::new(old(self).pixels().len(), |k: int| color));
    }

    /// The pixels, row by row from the top.
    pub fn get_buffer(&self) -> (r: &[u32])
        ensures
            r@ == self.pixels(),
    {
        self.buffer.as_slice()
    }

    /// Sets pixel `(x, y)` to `color` if it lies inside the frame; does nothing otherwise.
    fn set_pixel(&mut self, x: i128, y: i128, color: u32)
        requires
            old(self).wf(),
        ensures
            final(self).spec_width() == old(self).spec_width(),
            final(self).spec_height() == old(self).spec_height(),
            final(self).pixels() == painted(old(self).pixels(), old(self).spec_width(), at_point(x as int, y as int), color),
    {
        let ghost w = self.width as int;
        let ghost h = self.height as int;
        let ghost buf0 = self.pixels();
        if 0 <= x && x < self.width as i128 && 0 <= y && y < self.height as i128 {
            proof {
                lemma_index(w, h, x as int, y as int);
                assert(buf0.len() == w * h);
            }
            let n = self.buffer.len();
            let index = (y as usize) * self.width + (x as usize);
            self.buffer.set(index, color);
            assert forall|k: int| 0 <= k < buf0.len() implies
                self.pixels()[k] == painted(buf0, w as nat, at_point(x as int, y as int), color)[k] by {
                lemma_cell(w, h, k);
            }
        } else {
            assert forall|k: int| 0 <= k < buf0.len() implies
                self.pixels()[k] == painted(buf0, w as nat, at_point(x as int, y as int), color)[k] by {
                lemma_cell(w, h, k);
            }
        }
        assert(self.pixels() =~= painted(buf0, w as nat, at_point(x as int, y as int), color));
    }

    /// Draws the glyph of `ch` in `color` with its top-left corner at `(x, y)`;
    /// parts outside the frame are left out.
    fn draw_char(&mut self, ch: char, x: i128, y: i128, color: u32)
        requires
            old(self).wf(),
            -0x1_0000_0000_0000_0000_0000 <= x <= 0x1_0000_0000_0000_0000_0000,
            -0x1_0000_0000 <= y <= 0x1_0000_0000,
        ensures
            final(self).wf(),
            final(self).spec_width() == old(self).spec_width(),
            final(self).spec_height() == old(self).spec_height(),
            final(self).pixels() == painted(old(self).pixels(), old(self).spec_width(), char_pixels(ch, x as int, y as int), color),
    {
        let ghost w = self.spec_width();
        let ghost buf0 = self.pixels();
        let ghost all = char_pixels(ch, x as int, y as int);
        let rows = glyph_rows(ch);
        let mut row: usize = 0;
        proof {
            assert(self.pixels() =~= painted(buf0, w, |px: int, py: int| all(px, py) && py - y < 0, color));
        }
        while row < 7
            invariant
                self.wf(),
                self.spec_width() == w,
                self.spec_height() == old(self).spec_height(),
                buf0 == old(self).pixels(),
                w == old(self).spec_width(),
                all == char_pixels(ch, x as int, y as int),
                rows@ == glyph(ch),
                row <= 7,
                -0x1_0000_0000_0000_0000_0000 <= x <= 0x1_0000_0000_0000_0000_0000,
                -0x1_0000_0000 <= y <= 0x1_0000_0000,
                self.pixels() == painted(buf0, w, |px: int, py: int| all(px, py) && py - y < row, color),
            decreases 7 - row,
        {
            let bits = rows[row];
            let mut col: u8 = 0;
            proof {
                assert(painted(buf0, w, |px: int, py: int| all(px, py) && py - y < row, color)
                    =~= painted(buf0, w, |px: int, py: int| all(px, py) && (py - y < row || (py - y == row && px - x < col)), color));
            }
            while col < 5
                invariant
                    self.wf(),
                    self.spec_width() == w,
                    self.spec_height() == old(self).spec_height(),
                    buf0 == old(self).pixels(),
                    w == old(self).spec_width(),
                    all == char_pixels(ch, x as int, y as int),
                    rows@ == glyph(ch),
                    row < 7,
                    bits == glyph(ch)[row as int],
                    col <= 5,
                    -0x1_0000_0000_0000_0000_0000 <= x <= 0x1_0000_0000_0000_0000_0000,
                    -0x1_0000_0000 <= y <= 0x1_0000_0000,
                    self.pixels() == painted(buf0, w, |px: int, py: int| all(px, py) && (py - y < row || (py - y == row && px - x < col)), color),
                decreases 5 - col,
            {
                let ghost before = |px: int, py: int| all(px, py) && (py - y < row || (py - y == row && px - x < col));
                let ghost after = |px: int, py: int| all(px, py) && (py - y < row || (py - y == row && px - x < col + 1));
                if (bits >> (4 - col)) & 1 == 1 {
                    self.set_pixel(x + col as i128, y + row as i128, color);
                    proof {
                        lemma_paint_twice(buf0, w, before, at_point(x + col, y + row), color);
                        assert(painted(buf0, w, |px: int, py: int| before(px, py) || at_point(x + col, y + row)(px, py), color)
                            =~= painted(buf0, w, after, color));
                    }
                } else {
                    proof {
                        assert(painted(buf0, w, before, color) =~= painted(buf0, w, after, color));
                    }
                }
                col = col + 1;
            }
            proof {
                assert(painted(buf0, w, |px: int, py: int| all(px, py) && (py - y < row || (py - y == row && px - x < col)), color)
                    =~= painted(buf0, w, |px: int, py: int| all(px, py) && py - y < row + 1, color));
            }
            row = row + 1;
        }
        proof {
            assert(painted(buf0, w, |px: int, py: int| all(px, py) && py - y < row, color) =~= painted(buf0, w, all, color));
        }
    }

    /// Writes `text` in `color` from `(x, y)`: character `i` is drawn with its
    /// top-left corner at `(x + 6 * i, y)`; parts outside the frame are left out.
    pub fn draw_text(&mut self, text: &str, x: i32, y: i32, color: u32)
        requires
            old(self).wf(),
        ensures
            final(self).wf(),
            final(self).spec_width() == old(self).spec_width(),
            final(self).spec_height() == old(self).spec_height(),
            final(self).pixels() == painted(old(self).pixels(), old(self).spec_width(), text_pixels(text@, x as int, y as int), color),
    {
        let ghost w = self.spec_width();
        let ghost buf0 = self.pixels();
        let ghost all = text_pixels(text@, x as int, y as int);
        let n = text.unicode_len();
        let mut i: usize = 0;
        proof {
            assert(self.pixels() =~= painted(buf0, w, |px: int, py: int| all(px, py) && (px - x) / 6 < 0, color));
        }
        while i < n
            invariant
                self.wf(),
                self.spec_width() == w,
                self.spec_height() == old(self).spec_height(),
                buf0 == old(self).pixels(),
                w == old(self).spec_width(),
                all == text_pixels(text@, x as int, y as int),
                n == text@.len(),
                i <= n,
                self.pixels() == painted(buf0, w, |px: int, py: int| all(px, py) && (px - x) / 6 < i, color),
            decreases n - i,
        {
            let ch = text.get_char(i);
            let ghost before = |px: int, py: int| all(px, py) && (px - x) / 6 < i;
            let ghost after = |px: int, py: int| all(px, py) && (px - x) / 6 < i + 1;
            let ghost glyph_at = char_pixels(ch, x + 6 * i, y as int);
            self.draw_char(ch, x as i128 + 6 * (i as i128), y as i128, color);
            proof {
                lemma_paint_twice(buf0, w, before, glyph_at, color);
                assert forall|px: int, py: int| (before(px, py) || glyph_at(px, py)) == #[trigger] after(px, py) by {
                    lemma_text_column(text@, x as int, y as int, i as int, px, py);
                }
                assert(painted(buf0, w, |px: int, py: int| before(px, py) || glyph_at(px, py), color)
                    =~= painted(buf0, w, after, color));
            }
            i = i + 1;
        }
        proof {
            assert(painted(buf0, w, |px: int, py: int| all(px, py) && (px - x) / 6 < i, color) =~= painted(buf0, w, all, color));
        }
    }

    /// Fills the disc of `radius` around `(cx, cy)` with `color`, then marks the
    /// centre with a white dot; parts outside the frame are left out. A negative
    /// radius draws the dot alone.
    pub fn draw_circle(&mut self, cx: i32, cy: i32, radius: i32, color: u32)
        requires
            old(self).wf(),
        ensures
            final(self).wf(),
            final(self).spec_width() == old(self).spec_width(),
            final(self).spec_height() == old(self).spec_height(),
            final(self).pixels() == painted(
                painted(old(self).pixels(), old(self).spec_width(), disc(cx as int, cy as int, radius as int), color),
                old(self).spec_width(),
                at_point(cx as int, cy as int),
                CENTER_DOT,
            ),
    {
        let ghost w = self.spec_width();
        let ghost buf0 = self.pixels();
        let ghost all = disc(cx as int, cy as int, radius as int);
        let r = radius as i128;
        let x0 = cx as i128;
        let y0 = cy as i128;
        let mut dy: i128 = -r;
        proof {
            assert(self.pixels() =~= painted(buf0, w, |px: int, py: int| all(px, py) && py - y0 < dy, color));
        }
        while dy <= r
            invariant
                self.wf(),
                self.spec_width() == w,
                self.spec_height() == old(self).spec_height(),
                buf0 == old(self).pixels(),
                w == old(self).spec_width(),
                all == disc(cx as int, cy as int, radius as int),
                r == radius,
                x0 == cx,
                y0 == cy,
                -r <= dy,
                dy <= r + 1 || dy == -r,
                self.pixels() == painted(buf0, w, |px: int, py: int| all(px, py) && py - y0 < dy, color),
            decreases r + 1 - dy,
        {
            let mut dx: i128 = -r;
            proof {
                assert(painted(buf0, w, |px: int, py: int| all(px, py) && py - y0 < dy, color)
                    =~= painted(buf0, w, |px: int, py: int| all(px, py) && (py - y0 < dy || (py - y0 == dy && px - x0 < dx)), color));
            }
            while dx <= r
                invariant
                    self.wf(),
                    self.spec_width() == w,
                    self.spec_height() == old(self).spec_height(),
                    buf0 == old(self).pixels(),
                    w == old(self).spec_width(),
                    all == disc(cx as int, cy as int, radius as int),
                    r == radius,
                    x0 == cx,
                    y0 == cy,
                    -r <= dy <= r,
                    -r <= dx,
                    dx <= r + 1 || dx == -r,
                    self.pixels() == painted(buf0, w, |px: int, py: int| all(px, py) && (py - y0 < dy || (py - y0 == dy && px - x0 < dx)), color),
                decreases r + 1 - dx,
            {
                let ghost before = |px: int, py: int| all(px, py) && (py - y0 < dy || (py - y0 == dy && px - x0 < dx));
                let ghost after = |px: int, py: int| all(px, py) && (py - y0 < dy || (py - y0 == dy && px - x0 < dx + 1));
                proof {
                    lemma_square_bound(dx as int);
                    lemma_square_bound(dy as int);
                    lemma_square_bound(r as int);
                }
                if dx * dx + dy * dy <= r * r {
                    self.set_pixel(x0 + dx, y0 + dy, color);
                    proof {
                        lemma_paint_twice(buf0, w, before, at_point(x0 + dx, y0 + dy), color);
                        assert(painted(buf0, w, |px: int, py: int| before(px, py) || at_point(x0 + dx, y0 + dy)(px, py), color)
                            =~= painted(buf0, w, after, color));
                    }
                } else {
                    proof {
                        assert(painted(buf0, w, before, color) =~= painted(buf0, w, after, color));
                    }
                }
                dx = dx + 1;
            }
            proof {
                assert(painted(buf0, w, |px: int, py: int| all(px, py) && (py - y0 < dy || (py - y0 == dy && px - x0 < dx)), color)
                    =~= painted(buf0, w, |px: int, py: int| all(px, py) && py - y0 < dy + 1, color));
            }
            dy = dy + 1;
        }
        proof {
            assert(painted(buf0, w, |px: int, py: int| all(px, py) && py - y0 < dy, color) =~= painted(buf0, w, all, color));
        }
        self.set_pixel(x0, y0, CENTER_DOT);
    }

    /// Fills the box around `(cx, cy)` that reaches `half_width` pixels left and
    /// right of the centre and `half_height` pixels above and below it with
    /// `color`, then marks the centre with a white dot; parts outside the frame
    /// are left out. A negative half extent draws the dot alone.
    pub fn draw_rectangle(&mut self, cx: i32, cy: i32, half_width: i32, half_height: i32, color: u32)
        requires
            old(self).wf(),
        ensures
            final(self).wf(),
            final(self).spec_width() == old(self).spec_width(),
            final(self).spec_height() == old(self).spec_height(),
            final(self).pixels() == painted(
                painted(
                    old(self).pixels(),
                    old(self).spec_width(),
                    filled_box(cx as int, cy as int, half_width as int, half_height as int),
                    color,
                ),
                old(self).spec_width(),
                at_point(cx as int, cy as int),
                CENTER_DOT,
            ),
    {
        let ghost w = self.spec_width();
        let ghost buf0 = self.pixels();
        let ghost all = filled_box(cx as int, cy as int, half_width as int, half_height as int);
        let hw = half_width as i128;
        let hh = half_height as i128;
        let x0 = cx as i128;
        let y0 = cy as i128;
        let mut dy: i128 = -hh;
        proof {
            assert(self.pixels() =~= painted(buf0, w, |px: int, py: int| all(px, py) && py - y0 < dy, color));
        }
        while dy <= hh
            invariant
                self.wf(),
                self.spec_width() == w,
                self.spec_height() == old(self).spec_height(),
                buf0 == old(self).pixels(),
                w == old(self).spec_width(),
                all == filled_box(cx as int, cy as int, half_width as int, half_height as int),
                hw == half_width,
                hh == half_height,
                x0 == cx,
                y0 == cy,
                -hh <= dy,
                dy <= hh + 1 || dy == -hh,
                self.pixels() == painted(buf0, w, |px: int, py: int| all(px, py) && py - y0 < dy, color),
            decreases hh + 1 - dy,
        {
            let mut dx: i128 = -hw;
            proof {
                assert(painted(buf0, w, |px: int, py: int| all(px, py) && py - y0 < dy, color)
                    =~= painted(buf0, w, |px: int, py: int| all(px, py) && (py - y0 < dy || (py - y0 == dy && px - x0 < dx)), color));
            }
            while dx <= hw
                invariant
                    self.wf(),
                    self.spec_width() == w,
                    self.spec_height() == old(self).spec_height(),
                    buf0 == old(self).pixels(),
                    w == old(self).spec_width(),
                    all == filled_box(cx as int, cy as int, half_width as int, half_height as int),
                    hw == half_width,
                    hh == half_height,
                    x0 == cx,
                    y0 == cy,
                    -hh <= dy <= hh,
                    -hw <= dx,
                    dx <= hw + 1 || dx == -hw,
                    self.pixels() == painted(buf0, w, |px: int, py: int| all(px, py) && (py - y0 < dy || (py - y0 == dy && px - x0 < dx)), color),
                decreases hw + 1 - dx,
            {
                let ghost before = |px: int, py: int| all(px, py) && (py - y0 < dy || (py - y0 == dy && px - x0 < dx));
                let ghost after = |px: int, py: int| all(px, py) && (py - y0 < dy || (py - y0 == dy && px - x0 < dx + 1));
                self.set_pixel(x0 + dx, y0 + dy, color);
                proof {
                    lemma_paint_twice(buf0, w, before, at_point(x0 + dx, y0 + dy), color);
                    assert(painted(buf0, w, |px: int, py: int| before(px, py) || at_point(x0 + dx, y0 + dy)(px, py), color)
                        =~= painted(buf0, w, after, color));
                }
                dx = dx + 1;
            }
            proof {
                assert(painted(buf0, w, |px: int, py: int| all(px, py) && (py - y0 < dy || (py - y0 == dy && px - x0 < dx)), color)
                    =~= painted(buf0, w, |px: int, py: int| all(px, py) && py - y0 < dy + 1, color));
            }
            dy = dy + 1;
        }
        proof {
            assert(painted(buf0, w, |px: int, py: int| all(px, py) && py - y0 < dy, color) =~= painted(buf0, w, all, color));
        }
        self.set_pixel(x0, y0, CENTER_DOT);
    }
}

} // verus!
