//! Console drawing: damage rectangles, console fonts, the scrollback text
//! buffer and the pixel rendering of a text screen.

use vstd::prelude::*;
use std::collections::VecDeque;
use vstd::arithmetic::div_mod::lemma_fundamental_div_mod_converse;

verus! {

/// A rectangle of the screen that changed and must be sent to the display.
#[derive(Debug, Copy, Clone, PartialEq, Eq, Structural)]
pub struct Damage {
    pub x: u32,
    pub y: u32,
    pub width: u32,
    pub height: u32,
}

impl Damage {
    /// A damage rectangle covers no pixel when its width or height is zero.
    pub open spec fn is_none(self) -> bool {
        self.width == 0 || self.height == 0
    }

    /// The right edge `x + width` and the bottom edge `y + height` fit in a `u32`.
    pub open spec fn edges_fit(self) -> bool {
        self.x + self.width <= u32::MAX && self.y + self.height <= u32::MAX
    }

    /// The pixel `(px, py)` lies inside the rectangle.
    pub open spec fn covers(self, px: int, py: int) -> bool {
        self.x <= px < self.x + self.width && self.y <= py < self.y + self.height
    }

    /// The bounding box of two rectangles; an empty rectangle is ignored.
    pub open spec fn spec_merge(self, other: Damage) -> Damage {
        if self.is_none() {
            other
        } else if other.is_none() {
            self
        } else {
            let x = min(self.x as int, other.x as int);
            let y = min(self.y as int, other.y as int);
            let x2 = max(self.x + self.width, other.x + other.width);
            let y2 = max(self.y + self.height, other.y + other.height);
            Damage { x: x as u32, y: y as u32, width: (x2 - x) as u32, height: (y2 - y) as u32 }
        }
    }

    /// The empty damage rectangle.
    pub fn none() -> (d: Damage)
        ensures
            d == (Damage { x: 0, y: 0, width: 0, height: 0 }),
    {
        Damage { x: 0, y: 0, width: 0, height: 0 }
    }

    /// Merges two damage rectangles into their bounding box.
    pub fn merge(self, other: Self) -> (d: Self)
        requires
            !self.is_none() && !other.is_none() ==> self.edges_fit() && other.edges_fit(),
        ensures
            d == self.spec_merge(other),
    {
        if self.width == 0 || self.height == 0 {
            return other;
        }
        if other.width == 0 || other.height == 0 {
            return self;
        }
        let x = if self.x < other.x { self.x } else { other.x };
        let y = if self.y < other.y { self.y } else { other.y };
        let sx2 = self.x + self.width;
        let ox2 = other.x + other.width;
        let sy2 = self.y + self.height;
        let oy2 = other.y + other.height;
        let x2 = if sx2 > ox2 { sx2 } else { ox2 };
        let y2 = if sy2 > oy2 { sy2 } else { oy2 };
        Damage { x, y, width: x2 - x, height: y2 - y }
    }
}

pub open spec fn min(a: int, b: int) -> int {
    if a < b { a } else { b }
}

pub open spec fn max(a: int, b: int) -> int {
    if a > b { a } else { b }
}

/// Merging with an empty rectangle on the left gives the other rectangle.
pub proof fn lemma_merge_none_left(none: Damage, d: Damage)
    requires
        none.is_none(),
    ensures
        none.spec_merge(d) == d,
{
}

/// Merging a non-empty rectangle with an empty one gives the non-empty one.
pub proof fn lemma_merge_none_right(d: Damage, none: Damage)
    requires
        !d.is_none(),
        none.is_none(),
    ensures
        d.spec_merge(none) == d,
{
}

/// Merging two non-empty rectangles does not depend on their order.
pub proof fn lemma_merge_commutative(a: Damage, b: Damage)
    requires
        !a.is_none(),
        !b.is_none(),
        a.edges_fit(),
        b.edges_fit(),
    ensures
        a.spec_merge(b) == b.spec_merge(a),
{
}

/// The merge of two non-empty rectangles covers every pixel of both, and its
/// edges still fit in a `u32`.
pub proof fn lemma_merge_covers(a: Damage, b: Damage, px: int, py: int)
    requires
        !a.is_none(),
        !b.is_none(),
        a.edges_fit(),
        b.edges_fit(),
        a.covers(px, py) || b.covers(px, py),
    ensures
        a.spec_merge(b).covers(px, py),
        a.spec_merge(b).edges_fit(),
        !a.spec_merge(b).is_none(),
{
}


/// A bitmap console font: `height` bytes per glyph, one byte per row with
/// the leftmost pixel in the most significant bit.
#[derive(Clone)]
pub struct ConsoleFont {
    pub glyphs: Vec<u8>,
    pub width: usize,
    pub height: usize,
}

impl ConsoleFont {
    /// A font from its glyph bitmaps and glyph size.
    pub fn new(glyphs: Vec<u8>, width: usize, height: usize) -> (f: ConsoleFont)
        ensures
            f.glyphs@ == glyphs@,
            f.width == width,
            f.height == height,
    {
        ConsoleFont { glyphs, width, height }
    }
}

/// The pixels of a display: `width * height` 32-bit pixels, row after row.
pub struct DisplayMap {
    pub pixels: Vec<u32>,
    pub width: usize,
    pub height: usize,
}

impl DisplayMap {
    /// The pixel buffer holds exactly one row of `width` pixels per line.
    pub open spec fn wf(&self) -> bool {
        &&& self.pixels@.len() == self.width * self.height
        &&& self.pixels@.len() < usize::MAX
    }
}

/// The smaller of `a` and `b`, as an unsigned machine value.
pub open spec fn umin(a: int, b: int) -> int {
    if a < b { a } else { b }
}

/// `x` clamped to the largest `usize`.
pub open spec fn clamp(x: int) -> int {
    umin(x, usize::MAX as int)
}

fn clamp_mul(a: usize, b: usize) -> (r: usize)
    ensures
        r == clamp(a * b),
{
    match a.checked_mul(b) {
        Some(v) => v,
        None => usize::MAX,
    }
}

fn clamp_add(a: usize, b: usize) -> (r: usize)
    ensures
        r == clamp(a + b),
{
    a.saturating_add(b)
}

/// The pixels `p` of a `width`-wide display, where every pixel in rows
/// `y0..y1` and columns `x0..x1` went through `f`.
pub open spec fn spec_fill(
    p: Seq<u32>,
    width: int,
    x0: int,
    x1: int,
    y0: int,
    y1: int,
    f: spec_fn(u32) -> u32,
) -> Seq<u32> {
    Seq::new(
        p.len(),
        |i: int|
            if y0 <= i / width < y1 && x0 <= i % width < x1 {
                f(p[i])
            } else {
                p[i]
            },
    )
}

/// Painting with `color`.
pub open spec fn paint(color: u32) -> spec_fn(u32) -> u32 {
    |c: u32| color
}

/// Inverting every bit of a pixel.
pub open spec fn invert_bits() -> spec_fn(u32) -> u32 {
    |c: u32| !c
}

/// The pixel rectangle of `(x, y, w, h)` clipped to the display, as
/// `(x0, x1, y0, y1)`.
pub open spec fn clip_rect(map_w: int, map_h: int, x: int, y: int, w: int, h: int) -> (
    int,
    int,
    int,
    int,
) {
    (umin(map_w, x), umin(map_w, x + w), umin(map_h, y), umin(map_h, y + h))
}

/// The display after `f` was applied to the rectangle `(x, y, w, h)`,
/// clipped to the display.
pub open spec fn spec_rect_op(
    p: Seq<u32>,
    map_w: int,
    map_h: int,
    x: int,
    y: int,
    w: int,
    h: int,
    f: spec_fn(u32) -> u32,
) -> Seq<u32> {
    let r = clip_rect(map_w, map_h, x, y, w, h);
    spec_fill(p, map_w, r.0, r.1, r.2, r.3, f)
}

proof fn lemma_row_col(width: int, r: int, c: int)
    requires
        width > 0,
        r >= 0,
        0 <= c < width,
    ensures
        (r * width + c) / width == r,
        (r * width + c) % width == c,
{
    lemma_fundamental_div_mod_converse(r * width + c, width, r, c);
}

proof fn lemma_index_bound(width: int, height: int, r: int, c: int)
    requires
        0 <= r < height,
        0 <= c < width,
    ensures
        0 <= r * width + c < width * height,
        (r + 1) * width == r * width + width,
        (r + 1) * width <= width * height,
{
    assert(r * width + c < width * height) by (nonlinear_arith)
        requires
            0 <= r < height,
            0 <= c < width,
    ;
    assert(0 <= r * width) by (nonlinear_arith)
        requires
            0 <= r,
            0 <= width,
    ;
    assert((r + 1) * width == r * width + width) by (nonlinear_arith);
    assert((r + 1) * width <= width * height) by (nonlinear_arith)
        requires
            0 <= r < height,
            0 <= width,
    ;
}

proof fn lemma_row_of(width: int, i: int, r: int)
    requires
        width > 0,
        i >= 0,
        r >= 0,
    ensures
        i < r * width <==> i / width < r,
        i < (r + 1) * width <==> i / width <= r,
{
    vstd::arithmetic::div_mod::lemma_fundamental_div_mod(i, width);
    let q = i / width;
    let m = i % width;
    assert(i < r * width <==> q < r) by (nonlinear_arith)
        requires
            i == width * q + m,
            0 <= m < width,
            width > 0,
    ;
    assert(i < (r + 1) * width <==> q <= r) by (nonlinear_arith)
        requires
            i == width * q + m,
            0 <= m < width,
            width > 0,
    ;
}

/// Applies `invert` (or paints `color`) on the clipped rectangle, row by row.
fn rect_op(map: &mut DisplayMap, x: usize, y: usize, w: usize, h: usize, color: u32, invert: bool)
    requires
        old(map).wf(),
    ensures
        final(map).wf(),
        final(map).width == old(map).width,
        final(map).height == old(map).height,
        final(map).pixels@ == spec_rect_op(
            old(map).pixels@,
            old(map).width as int,
            old(map).height as int,
            x as int,
            y as int,
            w as int,
            h as int,
            if invert { invert_bits() } else { paint(color) },
        ),
{
    let ghost f = if invert { invert_bits() } else { paint(color) };
    let ghost old_p = map.pixels@;
    let width = map.width;
    let height = map.height;
    let end_xc = clamp_add(x, w);
    let end_yc = clamp_add(y, h);
    let start_y = if height < y { height } else { y };
    let end_y = if height < end_yc { height } else { end_yc };
    let start_x = if width < x { width } else { x };
    let end_x = if width < end_xc { width } else { end_xc };
    let ghost r = clip_rect(width as int, height as int, x as int, y as int, w as int, h as int);
    assert(r == (start_x as int, end_x as int, start_y as int, end_y as int));
    let ghost target = spec_fill(old_p, width as int, r.0, r.1, r.2, r.3, f);
    if width == 0 || start_y >= end_y {
        proof {
            assert forall|i: int| 0 <= i < old_p.len() implies target[i] == old_p[i] by {
                if width > 0 {
                    vstd::arithmetic::div_mod::lemma_fundamental_div_mod(i, width as int);
                }
            }
            assert(map.pixels@ =~= target);
        }
        return;
    }
    let mut row = start_y;
    proof {
        lemma_index_bound(width as int, height as int, row as int, 0);
        assert forall|i: int| 0 <= i < row * width implies map.pixels@[i] == target[i] by {
            lemma_row_of(width as int, i, row as int);
        }
    }
    while row < end_y
        invariant
            map.wf(),
            map.width == width,
            map.height == height,
            width > 0,
            old_p.len() == width * height,
            start_y <= row <= end_y <= height,
            start_x <= end_x <= width,
            target == spec_fill(old_p, width as int, start_x as int, end_x as int, start_y as int, end_y as int, f),
            f == (if invert { invert_bits() } else { paint(color) }),
            forall|i: int| 0 <= i < row * width ==> map.pixels@[i] == target[i],
            forall|i: int| row * width <= i < old_p.len() ==> map.pixels@[i] == old_p[i],
        decreases end_y - row,
    {
        proof {
            lemma_index_bound(width as int, height as int, row as int, 0);
        }
        let base = row * width;
        let mut col = start_x;
        proof {
            assert forall|i: int| row * width <= i < row * width + col implies map.pixels@[i]
                == target[i] by {
                lemma_row_col(width as int, row as int, i - row * width);
            }
        }
        while col < end_x
            invariant
                map.wf(),
                map.width == width,
                map.height == height,
                width > 0,
                old_p.len() == width * height,
                start_y <= row < end_y <= height,
                start_x <= col <= end_x <= width,
                base == row * width,
                base + width <= old_p.len(),
                target == spec_fill(old_p, width as int, start_x as int, end_x as int, start_y as int, end_y as int, f),
                f == (if invert { invert_bits() } else { paint(color) }),
                forall|i: int| 0 <= i < row * width ==> map.pixels@[i] == target[i],
                forall|i: int| row * width <= i < row * width + col ==> map.pixels@[i] == target[i],
                forall|i: int| row * width + col <= i < old_p.len() ==> map.pixels@[i] == old_p[i],
            decreases end_x - col,
        {
            let idx = base + col;
            let old_v = map.pixels[idx];
            let v = if invert { !old_v } else { color };
            proof {
                lemma_row_col(width as int, row as int, col as int);
                assert(target[idx as int] == f(old_p[idx as int]));
            }
            map.pixels.set(idx, v);
            col += 1;
        }
        proof {
            assert forall|i: int| row * width <= i < (row + 1) * width implies map.pixels@[i]
                == target[i] by {
                lemma_row_col(width as int, row as int, i - row * width);
            }
        }
        row += 1;
    }
    proof {
        assert forall|i: int| row * width <= i < old_p.len() implies map.pixels@[i] == target[i] by {
            lemma_row_of(width as int, i, row as int);
        }
        assert(map.pixels@ =~= target);
    }
}

/// Bit `c` of a glyph row, counted from the most significant bit.
pub open spec fn glyph_bit(row_bits: u8, c: int) -> bool {
    (row_bits >> ((7 - c) as u8)) & 1u8 == 1u8
}

/// The display after the glyph of code point `ch` was drawn in `color` with
/// its top left corner at pixel `(x, y)`: a glyph that does not fit on the
/// display, or that the font does not have, draws nothing.
pub open spec fn spec_char(
    p: Seq<u32>,
    width: int,
    height: int,
    x: int,
    y: int,
    glyphs: Seq<u8>,
    fw: int,
    fh: int,
    ch: int,
    color: u32,
) -> Seq<u32> {
    if x + fw <= width && y + fh <= height && fh * ch + fh <= glyphs.len() {
        Seq::new(
            p.len(),
            |i: int|
                {
                    let r = i / width - y;
                    let c = i % width - x;
                    if 0 <= r < fh && 0 <= c < fw && glyph_bit(glyphs[fh * ch + r], c) {
                        color
                    } else {
                        p[i]
                    }
                },
        )
    } else {
        p
    }
}

/// Draws the glyph of `ch` from `font` at pixel `(x, y)`.
fn char_op(map: &mut DisplayMap, x: usize, y: usize, ch: char, font: &ConsoleFont, color: u32)
    requires
        old(map).wf(),
        font.width <= 8,
        font.glyphs@.len() < usize::MAX,
    ensures
        final(map).wf(),
        final(map).width == old(map).width,
        final(map).height == old(map).height,
        final(map).pixels@ == spec_char(
            old(map).pixels@,
            old(map).width as int,
            old(map).height as int,
            x as int,
            y as int,
            font.glyphs@,
            font.width as int,
            font.height as int,
            ch as int,
            color,
        ),
{
    let ghost old_p = map.pixels@;
    let width = map.width;
    let height = map.height;
    let fw = font.width;
    let fh = font.height;
    let ghost target = spec_char(
        old_p,
        width as int,
        height as int,
        x as int,
        y as int,
        font.glyphs@,
        fw as int,
        fh as int,
        ch as int,
        color,
    );
    let x_end = clamp_add(x, fw);
    let y_end = clamp_add(y, fh);
    let code = ch as u32 as usize;
    let font_i = clamp_mul(fh, code);
    let font_end = clamp_add(font_i, fh);
    if !(x_end <= width && y_end <= height && font_end <= font.glyphs.len()) {
        return;
    }
    if fh == 0 || fw == 0 {
        proof {
            assert(map.pixels@ =~= target);
        }
        return;
    }
    proof {
        assert(height >= 1 && width >= 1);
        assert(width <= width * height && height <= width * height) by (nonlinear_arith)
            requires
                height >= 1,
                width >= 1,
        ;
    }
    let mut row: usize = 0;
    while row < fh
        invariant
            map.wf(),
            map.width == width,
            map.height == height,
            old_p.len() == width * height,
            width > 0,
            0 < fw <= 8,
            x + fw <= width,
            y + fh <= height,
            font_i == fh * (ch as int),
            font_i + fh <= font.glyphs@.len(),
            font.glyphs@.len() < usize::MAX,
            fw == font.width,
            fh == font.height,
            row <= fh,
            target == spec_char(old_p, width as int, height as int, x as int, y as int, font.glyphs@, fw as int, fh as int, ch as int, color),
            forall|i: int| 0 <= i < old_p.len() && i / (width as int) < y + row ==> map.pixels@[i] == target[i],
            forall|i: int| 0 <= i < old_p.len() && i / (width as int) >= y + row ==> map.pixels@[i] == old_p[i],
        decreases fh - row,
    {
        assert(font_i + row < font.glyphs@.len());
        let row_data = font.glyphs[font_i + row];
        proof {
            lemma_index_bound(width as int, height as int, (y + row) as int, x as int);
        }
        let base = (y + row) * width + x;
        let mut col: usize = 0;
        while col < fw
            invariant
                map.wf(),
                map.width == width,
                map.height == height,
                old_p.len() == width * height,
                width > 0,
                0 < fw <= 8,
                x + fw <= width,
                y + fh <= height,
                row < fh,
                font_i == fh * (ch as int),
                font_i + fh <= font.glyphs@.len(),
                row_data == font.glyphs@[font_i + row],
                base == (y + row) * width + x,
                col <= fw,
                target == spec_char(old_p, width as int, height as int, x as int, y as int, font.glyphs@, fw as int, fh as int, ch as int, color),
                forall|i: int| 0 <= i < old_p.len() && i / (width as int) < y + row ==> map.pixels@[i] == target[i],
                forall|i: int| 0 <= i < old_p.len() && i / (width as int) == y + row && i % (width as int) < x + col ==> map.pixels@[i] == target[i],
                forall|i: int| 0 <= i < old_p.len() && i / (width as int) == y + row && i % (width as int) >= x + col ==> map.pixels@[i] == old_p[i],
                forall|i: int| 0 <= i < old_p.len() && i / (width as int) > y + row ==> map.pixels@[i] == old_p[i],
            decreases fw - col,
        {
            proof {
                lemma_index_bound(width as int, height as int, (y + row) as int, (x + col) as int);
                lemma_row_col(width as int, (y + row) as int, (x + col) as int);
            }
            let idx = base + col;
            let ghost before = map.pixels@;
            let bit = (row_data >> (7 - col)) & 1 == 1;
            assert(bit == glyph_bit(font.glyphs@[font_i + row], col as int));
            if bit {
                map.pixels.set(idx, color);
            }
            proof {
                assert(target[idx as int] == (if bit { color } else { old_p[idx as int] }));
                assert forall|i: int|
                    0 <= i < old_p.len() && i / (width as int) == y + row && i % (width as int) < x
                        + col + 1 implies map.pixels@[i] == target[i] by {
                    if i != idx {
                        assert(map.pixels@[i] == before[i]);
                        vstd::arithmetic::div_mod::lemma_fundamental_div_mod(i, width as int);
                        assert(i % (width as int) != x + col);
                    }
                }
            }
            col += 1;
        }
        row += 1;
    }
    proof {
        assert forall|i: int| 0 <= i < old_p.len() implies map.pixels@[i] == target[i] by {
            vstd::arithmetic::div_mod::lemma_fundamental_div_mod(i, width as int);
            lemma_row_of(width as int, i, height as int);
            if i / (width as int) >= y + fh {
            }
        }
        assert(map.pixels@ =~= target);
    }
}

proof fn lemma_clamp_add(a: int, b: int)
    requires
        a >= 0,
        b >= 0,
    ensures
        clamp(clamp(a) + clamp(b)) == clamp(a + b),
{
}

proof fn lemma_clamp_mul(a: int, b: int)
    requires
        a >= 0,
        b >= 0,
    ensures
        clamp(clamp(a) * clamp(b)) == clamp(a * b),
{
    let m = usize::MAX as int;
    if a <= m && b <= m {
    } else if b == 0 || a == 0 {
        assert(a * b == 0 && clamp(a) * clamp(b) == 0) by (nonlinear_arith)
            requires
                a == 0 || b == 0,
                clamp(a) == 0 || clamp(b) == 0,
        ;
    } else {
        assert(a * b > m && clamp(a) * clamp(b) >= m) by (nonlinear_arith)
            requires
                a >= 1,
                b >= 1,
                a > m || b > m,
                clamp(a) >= 1,
                clamp(b) >= 1,
                clamp(a) == m || clamp(b) == m,
        ;
    }
}

/// The pixels `p` after `len` pixels were copied from offset `from` to
/// offset `to`, as by a move of possibly overlapping ranges; nothing moves
/// unless both ranges lie inside the buffer.
pub open spec fn spec_copy(p: Seq<u32>, from: int, to: int, len: int) -> Seq<u32> {
    if from + len <= p.len() && to + len <= p.len() {
        Seq::new(p.len(), |i: int| if to <= i < to + len { p[from + i - to] } else { p[i] })
    } else {
        p
    }
}

/// A block move of the text grid, in character cells.
#[derive(Debug, Copy, Clone, PartialEq, Eq, Structural)]
pub struct CellMove {
    pub from_x: usize,
    pub from_y: usize,
    pub to_x: usize,
    pub to_y: usize,
    pub w: usize,
    pub h: usize,
}

/// The text row moved at step `raw_y`: bottom-up when moving down, so that
/// no row is overwritten before it moved.
pub open spec fn move_row(m: CellMove, raw_y: int) -> int {
    if m.from_y > m.to_y { raw_y } else { m.h - raw_y - 1 }
}

/// Pixel offset of pixel line `pixel_y` of text row `row` at cell column `col`.
pub open spec fn cell_offset(row: int, col: int, pixel_y: int, width: int, fw: int, fh: int) -> int {
    (row * fh + pixel_y) * width + col * fw
}

/// One pixel line of a moved text row.
pub open spec fn move_line(
    p: Seq<u32>,
    m: CellMove,
    raw_y: int,
    pixel_y: int,
    width: int,
    fw: int,
    fh: int,
) -> Seq<u32> {
    let y = move_row(m, raw_y);
    spec_copy(
        p,
        cell_offset(m.from_y + y, m.from_x as int, pixel_y, width, fw, fh),
        cell_offset(m.to_y + y, m.to_x as int, pixel_y, width, fw, fh),
        m.w * fw,
    )
}

/// The first `n` pixel lines of text row step `raw_y` moved. Each text row
/// moves `fw` pixel lines, the count the move has always used.
pub open spec fn move_lines(
    p: Seq<u32>,
    m: CellMove,
    raw_y: int,
    n: int,
    width: int,
    fw: int,
    fh: int,
) -> Seq<u32>
    decreases n,
{
    if n <= 0 {
        p
    } else {
        move_line(move_lines(p, m, raw_y, n - 1, width, fw, fh), m, raw_y, n - 1, width, fw, fh)
    }
}

/// The first `n` row steps of a move applied.
pub open spec fn move_rows(p: Seq<u32>, m: CellMove, n: int, width: int, fw: int, fh: int) -> Seq<
    u32,
>
    decreases n,
{
    if n <= 0 {
        p
    } else {
        move_lines(move_rows(p, m, n - 1, width, fw, fh), m, n - 1, fw, width, fw, fh)
    }
}

/// Copies `len` pixels from `from` to `to` when both ranges fit.
fn copy_pixels(map: &mut DisplayMap, from: usize, to: usize, len: usize)
    requires
        old(map).wf(),
    ensures
        final(map).wf(),
        final(map).width == old(map).width,
        final(map).height == old(map).height,
        final(map).pixels@ == spec_copy(old(map).pixels@, from as int, to as int, len as int),
{
    let n = map.pixels.len();
    let from_end = clamp_add(from, len);
    let to_end = clamp_add(to, len);
    if !(from_end <= n && to_end <= n) {
        return;
    }
    let ghost old_p = map.pixels@;
    assert(from + len <= n && to + len <= n);
    let mut tmp: Vec<u32> = Vec::new();
    let mut i: usize = 0;
    while i < len
        invariant
            map.pixels@ == old_p,
            map.wf(),
            map.width == old(map).width,
            map.height == old(map).height,
            from + len <= old_p.len(),
            i <= len,
            tmp@.len() == i,
            forall|j: int| 0 <= j < i ==> tmp@[j] == old_p[from + j],
        decreases len - i,
    {
        tmp.push(map.pixels[from + i]);
        i += 1;
    }
    let mut k: usize = 0;
    while k < len
        invariant
            map.wf(),
            map.width == old(map).width,
            map.height == old(map).height,
            map.pixels@.len() == old_p.len(),
            to + len <= old_p.len(),
            from + len <= old_p.len(),
            k <= len,
            tmp@.len() == len,
            forall|j: int| 0 <= j < len ==> tmp@[j] == old_p[from + j],
            forall|j: int| 0 <= j < old_p.len() && !(to <= j < to + k) ==> map.pixels@[j] == old_p[j],
            forall|j: int| to <= j < to + k ==> map.pixels@[j] == old_p[from + j - to],
        decreases len - k,
    {
        map.pixels.set(to + k, tmp[k]);
        k += 1;
    }
    assert(map.pixels@ =~= spec_copy(old_p, from as int, to as int, len as int));
}

fn cell_offset_exec(row_a: usize, row_b: usize, col: usize, pixel_y: usize, width: usize, fw: usize, fh: usize) -> (r: usize)
    ensures
        r == clamp(cell_offset(row_a + row_b, col as int, pixel_y as int, width as int, fw as int, fh as int)),
{
    let row = clamp_add(row_a, row_b);
    let a = clamp_mul(row, fh);
    let b = clamp_add(a, pixel_y);
    let c = clamp_mul(b, width);
    let d = clamp_mul(col, fw);
    proof {
        let rr = row_a + row_b;
        lemma_clamp_mul(rr, fh as int);
        assert(a == clamp(rr * fh));
        lemma_clamp_add(rr * fh, pixel_y as int);
        assert(b == clamp(rr * fh + pixel_y));
        assert(rr * fh + pixel_y >= 0) by (nonlinear_arith)
            requires rr >= 0, fh >= 0, pixel_y >= 0;
        lemma_clamp_mul(rr * fh + pixel_y, width as int);
        assert(c == clamp((rr * fh + pixel_y) * width));
        assert((rr * fh + pixel_y) * width >= 0 && col * fw >= 0) by (nonlinear_arith)
            requires rr >= 0, fh >= 0, pixel_y >= 0, width >= 0, col >= 0, fw >= 0;
        lemma_clamp_add((rr * fh + pixel_y) * width, col * fw);
    }
    clamp_add(c, d)
}

/// Moves a block of text cells, one pixel line at a time.
fn move_op(map: &mut DisplayMap, m: CellMove, fw: usize, fh: usize)
    requires
        old(map).wf(),
    ensures
        final(map).wf(),
        final(map).width == old(map).width,
        final(map).height == old(map).height,
        final(map).pixels@ == move_rows(old(map).pixels@, m, m.h as int, old(map).width as int, fw as int, fh as int),
{
    let ghost old_p = map.pixels@;
    let width = map.width;
    let len = clamp_mul(m.w, fw);
    let mut raw_y: usize = 0;
    while raw_y < m.h
        invariant
            map.wf(),
            map.width == width,
            map.height == old(map).height,
            len == clamp(m.w * fw),
            raw_y <= m.h,
            map.pixels@ == move_rows(old_p, m, raw_y as int, width as int, fw as int, fh as int),
        decreases m.h - raw_y,
    {
        let y = if m.from_y > m.to_y { raw_y } else { m.h - raw_y - 1 };
        let ghost start = map.pixels@;
        let mut pixel_y: usize = 0;
        while pixel_y < fw
            invariant
                map.wf(),
                map.width == width,
                map.height == old(map).height,
                len == clamp(m.w * fw),
                raw_y < m.h,
                y == move_row(m, raw_y as int),
                pixel_y <= fw,
                start == move_rows(old_p, m, raw_y as int, width as int, fw as int, fh as int),
                map.pixels@ == move_lines(start, m, raw_y as int, pixel_y as int, width as int, fw as int, fh as int),
            decreases fw - pixel_y,
        {
            let off_from = cell_offset_exec(m.from_y, y, m.from_x, pixel_y, width, fw, fh);
            let off_to = cell_offset_exec(m.to_y, y, m.to_x, pixel_y, width, fw, fh);
            let ghost before = map.pixels@;
            let n = map.pixels.len();
            let fe = clamp_add(off_from, len);
            let te = clamp_add(off_to, len);
            proof {
                let ef = cell_offset(m.from_y + y, m.from_x as int, pixel_y as int, width as int, fw as int, fh as int);
                let et = cell_offset(m.to_y + y, m.to_x as int, pixel_y as int, width as int, fw as int, fh as int);
                assert(ef >= 0 && et >= 0 && m.w * fw >= 0) by (nonlinear_arith)
                    requires
                        ef == ((m.from_y + y) * fh + pixel_y) * width + m.from_x * fw,
                        et == ((m.to_y + y) * fh + pixel_y) * width + m.to_x * fw,
                        m.from_y >= 0, m.to_y >= 0, y >= 0, fh >= 0, pixel_y >= 0, width >= 0, m.from_x >= 0, m.to_x >= 0, fw >= 0, m.w >= 0;
                lemma_clamp_add(ef, m.w * fw);
                lemma_clamp_add(et, m.w * fw);
            }
            if fe <= n && te <= n {
                copy_pixels(map, off_from, off_to, len);
            }
            pixel_y += 1;
        }
        raw_y += 1;
    }
}

/// A fill of text cells paints exactly the pixels of those cells: a pixel
/// takes the fill's color when its pixel row lies in the cells' rows and
/// its pixel column in the cells' columns (cells `fw` x `fh` pixels), and
/// keeps its value otherwise.
pub proof fn lemma_rect_fills_its_cells(
    d: Drawn,
    x: usize,
    y: usize,
    w: usize,
    h: usize,
    color: ConsoleColor,
    font: ConsoleFont,
    width: int,
    height: int,
)
    requires
        width > 0,
        height >= 0,
        d.0.len() == width * height,
    ensures
        forall|i: int| 0 <= i < d.0.len() ==> #[trigger] draw_event(d, ConsoleEvent::Rect { x, y, w, h, color }, font, width, height).0[i]
            == (if y * font.height <= i / width < (y + h) * font.height && x * font.width <= i % width < (x + w) * font.width {
                ransid_color_rgb(color)
            } else {
                d.0[i]
            }),
{
    let fw = font.width as int;
    let fh = font.height as int;
    assert forall|i: int| 0 <= i < d.0.len() implies #[trigger] draw_event(d, ConsoleEvent::Rect { x, y, w, h, color }, font, width, height).0[i]
        == (if y * font.height <= i / width < (y + h) * font.height && x * font.width <= i % width < (x + w) * font.width {
            ransid_color_rgb(color)
        } else {
            d.0[i]
        }) by {
        assert(width * height == height * width) by (nonlinear_arith);
        lemma_row_of(width, i, height);
        assert(i / width < height);
        vstd::arithmetic::div_mod::lemma_mod_bound(i, width);
        assert(0 <= i % width < width);
        assert(x * fw + w * fw == (x + w) * fw) by (nonlinear_arith);
        assert(y * fh + h * fh == (y + h) * fh) by (nonlinear_arith);
        let r = clip_rect(width, height, x * fw, y * fh, w * fw, h * fh);
        let q = spec_fill(d.0, width, r.0, r.1, r.2, r.3, paint(ransid_color_rgb(color)));
        assert(draw_event(d, ConsoleEvent::Rect { x, y, w, h, color }, font, width, height).0 == q);
        assert((r.2 <= i / width < r.3) == (y * fh <= i / width < (y + h) * fh));
        assert((r.0 <= i % width < r.1) == (x * fw <= i % width < (x + w) * fw));
        assert(q[i] == (if r.2 <= i / width < r.3 && r.0 <= i % width < r.1 { paint(ransid_color_rgb(color))(d.0[i]) } else { d.0[i] }));
    }
}

/// A character drawn in cell `(x, y)` sets, in its cell of `fw` x `fh`
/// pixels, the pixels whose glyph bit is set (row `r` of the cell reading
/// byte `r` of the character's glyph, column `c` its bit `c` from the most
/// significant) to its color, and leaves every other pixel alone; a cell
/// past the display or a character the font lacks draws nothing.
pub proof fn lemma_char_draws_its_glyph(
    d: Drawn,
    x: usize,
    y: usize,
    c: char,
    bold: bool,
    color: ConsoleColor,
    font: ConsoleFont,
    width: int,
    height: int,
)
    requires
        width > 0,
        d.0.len() == width * height,
    ensures
        ({
            let fw = font.width as int;
            let fh = font.height as int;
            let q = draw_event(d, ConsoleEvent::Char { x, y, c, bold, color }, font, width, height).0;
            let fits = (x + 1) * fw <= width && (y + 1) * fh <= height && fh * (c as int) + fh <= font.glyphs@.len();
            &&& !fits ==> q == d.0
            &&& fits ==> forall|i: int| 0 <= i < d.0.len() ==> #[trigger] q[i] == (if y * fh <= i / width < (y + 1) * fh
                && x * fw <= i % width < (x + 1) * fw
                && glyph_bit(font.glyphs@[fh * (c as int) + (i / width - y * fh)], i % width - x * fw) {
                ransid_color_rgb(color)
            } else {
                d.0[i]
            })
        }),
{
    let fw = font.width as int;
    let fh = font.height as int;
    assert((x + 1) * fw == x * fw + fw) by (nonlinear_arith);
    assert((y + 1) * fh == y * fh + fh) by (nonlinear_arith);
}

/// The pixel a move of text cells reads for pixel `cx` of pixel line `py`
/// of row `y` of its block.
pub open spec fn move_src(m: CellMove, y: int, py: int, cx: int, width: int, fw: int, fh: int) -> int {
    cell_offset(m.from_y + y, m.from_x as int, py, width, fw, fh) + cx
}

/// The pixel a move of text cells writes for pixel `cx` of pixel line `py`
/// of row `y` of its block.
pub open spec fn move_dst(m: CellMove, y: int, py: int, cx: int, width: int, fw: int, fh: int) -> int {
    cell_offset(m.to_y + y, m.to_x as int, py, width, fw, fh) + cx
}

/// A move whose source and target blocks lie inside a display of `width` x
/// `height` pixels without wrapping from one pixel row to the next, drawn
/// with a font `fw` x `fh` no wider than high.
pub open spec fn move_fits(m: CellMove, width: int, height: int, fw: int, fh: int) -> bool {
    &&& width > 0
    &&& 0 < fw <= fh
    &&& m.from_x * fw + m.w * fw <= width
    &&& m.to_x * fw + m.w * fw <= width
    &&& (m.from_y + m.h) * fh <= height
    &&& (m.to_y + m.h) * fh <= height
}

proof fn lemma_cell_pos(row: int, col: int, py: int, cx: int, width: int, fw: int, fh: int)
    requires
        row >= 0,
        py >= 0,
        col >= 0,
        fw >= 0,
        fh >= 0,
        cx >= 0,
        col * fw + cx < width,
    ensures
        cell_offset(row, col, py, width, fw, fh) + cx >= 0,
        (cell_offset(row, col, py, width, fw, fh) + cx) / width == row * fh + py,
        (cell_offset(row, col, py, width, fw, fh) + cx) % width == col * fw + cx,
{
    assert(row * fh + py >= 0 && col * fw >= 0) by (nonlinear_arith)
        requires row >= 0, py >= 0, fh >= 0, col >= 0, fw >= 0;
    lemma_row_col(width, row * fh + py, col * fw + cx);
    assert((row * fh + py) * width >= 0) by (nonlinear_arith)
        requires row * fh + py >= 0, width > 0;
}

proof fn lemma_cell_bound(row: int, col: int, py: int, width: int, height: int, fw: int, fh: int, len: int)
    requires
        width > 0,
        0 <= py < fw <= fh,
        row >= 0,
        (row + 1) * fh <= height,
        col >= 0,
        len >= 0,
        col * fw + len <= width,
    ensures
        cell_offset(row, col, py, width, fw, fh) >= 0,
        cell_offset(row, col, py, width, fw, fh) + len <= width * height,
{
    let l = row * fh + py;
    assert(l >= 0 && l + 1 <= height) by (nonlinear_arith)
        requires l == row * fh + py, row >= 0, 0 <= py < fh, (row + 1) * fh <= height;
    assert(l * width + width <= width * height && l * width >= 0) by (nonlinear_arith)
        requires l >= 0, l + 1 <= height, width > 0;
    assert(col * fw >= 0) by (nonlinear_arith)
        requires col >= 0, fw >= 0;
}

/// Pixel line `py` of text row `r` is not among the first `q` pixel lines
/// of another text row `r0`.
proof fn lemma_line_outside(r: int, r0: int, py: int, q: int, fh: int)
    requires
        r != r0,
        0 <= py < fh,
        0 <= q <= fh,
    ensures
        !(r0 * fh <= r * fh + py < r0 * fh + q),
{
    if r < r0 {
        assert(r * fh + py < r0 * fh) by (nonlinear_arith)
            requires r < r0, 0 <= py < fh;
    } else {
        assert(r * fh >= (r0 + 1) * fh) by (nonlinear_arith)
            requires r >= r0 + 1, fh >= 0;
        assert((r0 + 1) * fh == r0 * fh + fh) by (nonlinear_arith);
    }
}

/// Pixels of the copy range of one pixel line lie on that line, in the
/// block's columns.
proof fn lemma_in_line(x: int, row: int, col: int, py: int, width: int, fw: int, fh: int, len: int)
    requires
        row >= 0,
        py >= 0,
        col >= 0,
        fw >= 0,
        fh >= 0,
        col * fw + len <= width,
        cell_offset(row, col, py, width, fw, fh) <= x < cell_offset(row, col, py, width, fw, fh) + len,
    ensures
        x / width == row * fh + py,
        col * fw <= x % width < col * fw + len,
{
    let cx = x - cell_offset(row, col, py, width, fw, fh);
    lemma_cell_pos(row, col, py, cx, width, fw, fh);
}

/// The first `q` pixel lines of one row step of a move: the target lines
/// hold what the source lines held, and no other pixel changed.
proof fn lemma_move_lines_effect(s: Seq<u32>, m: CellMove, raw: int, q: int, width: int, height: int, fw: int, fh: int)
    requires
        move_fits(m, width, height, fw, fh),
        s.len() == width * height,
        0 <= raw < m.h,
        0 <= q <= fw,
    ensures
        move_lines(s, m, raw, q, width, fw, fh).len() == s.len(),
        forall|py: int, cx: int|
            #![trigger move_dst(m, move_row(m, raw), py, cx, width, fw, fh)]
            0 <= py < q && 0 <= cx < m.w * fw ==> move_lines(s, m, raw, q, width, fw, fh)[move_dst(m, move_row(m, raw), py, cx, width, fw, fh)]
                == s[move_src(m, move_row(m, raw), py, cx, width, fw, fh)],
        forall|x: int|
            0 <= x < s.len() && !((m.to_y + move_row(m, raw)) * fh <= x / width < (m.to_y + move_row(m, raw)) * fh + q
                && m.to_x * fw <= x % width < m.to_x * fw + m.w * fw) ==> #[trigger] move_lines(s, m, raw, q, width, fw, fh)[x] == s[x],
    decreases q,
{
    if q > 0 {
        lemma_move_lines_effect(s, m, raw, q - 1, width, height, fw, fh);
        let y0 = move_row(m, raw);
        let tp = move_lines(s, m, raw, q - 1, width, fw, fh);
        let t = move_lines(s, m, raw, q, width, fw, fh);
        let len = m.w * fw;
        let from = cell_offset(m.from_y + y0, m.from_x as int, q - 1, width, fw, fh);
        let to = cell_offset(m.to_y + y0, m.to_x as int, q - 1, width, fw, fh);
        assert(len >= 0) by (nonlinear_arith)
            requires len == m.w * fw, m.w >= 0, fw >= 0;
        assert(m.from_y + y0 + 1 <= m.from_y + m.h && m.to_y + y0 + 1 <= m.to_y + m.h);
        assert((m.from_y + y0 + 1) * fh <= height && (m.to_y + y0 + 1) * fh <= height) by (nonlinear_arith)
            requires
                m.from_y + y0 + 1 <= m.from_y + m.h,
                m.to_y + y0 + 1 <= m.to_y + m.h,
                (m.from_y + m.h) * fh <= height,
                (m.to_y + m.h) * fh <= height,
                fh >= 0;
        lemma_cell_bound(m.from_y + y0, m.from_x as int, q - 1, width, height, fw, fh, len);
        lemma_cell_bound(m.to_y + y0, m.to_x as int, q - 1, width, height, fw, fh, len);
        assert(t == spec_copy(tp, from, to, len));
        assert(t.len() == s.len());
        assert forall|py: int, cx: int|
            #![trigger move_dst(m, y0, py, cx, width, fw, fh)]
            0 <= py < q && 0 <= cx < len implies t[move_dst(m, y0, py, cx, width, fw, fh)] == s[move_src(m, y0, py, cx, width, fw, fh)] by {
            let x = move_dst(m, y0, py, cx, width, fw, fh);
            lemma_cell_pos(m.to_y + y0, m.to_x as int, py, cx, width, fw, fh);
            lemma_cell_bound(m.to_y + y0, m.to_x as int, py, width, height, fw, fh, cx + 1);
            lemma_cell_bound(m.from_y + y0, m.from_x as int, py, width, height, fw, fh, cx + 1);
            if py < q - 1 {
                if to <= x < to + len {
                    lemma_in_line(x, m.to_y + y0, m.to_x as int, q - 1, width, fw, fh, len);
                }
                assert(t[x] == tp[x]);
            } else {
                let xs = move_src(m, y0, py, cx, width, fw, fh);
                assert(t[x] == tp[from + cx]);
                lemma_cell_pos(m.from_y + y0, m.from_x as int, py, cx, width, fw, fh);
                if m.from_y != m.to_y {
                    lemma_line_outside(m.from_y + y0, m.to_y + y0, py, q - 1, fh);
                }
                assert(tp[xs] == s[xs]);
            }
        }
        assert forall|x: int|
            0 <= x < s.len() && !((m.to_y + y0) * fh <= x / width < (m.to_y + y0) * fh + q
                && m.to_x * fw <= x % width < m.to_x * fw + m.w * fw) implies #[trigger] t[x] == s[x] by {
            if to <= x < to + len {
                lemma_in_line(x, m.to_y + y0, m.to_x as int, q - 1, width, fw, fh, len);
            }
            assert(t[x] == tp[x]);
        }
    }
}

/// Pixel `x` of a display `width` pixels wide lies in the part of a move's
/// target block that the move writes: the first `fw` pixel lines of one of
/// its rows, within its columns.
pub open spec fn in_move_target(m: CellMove, x: int, width: int, fw: int, fh: int) -> bool {
    exists|y: int| 0 <= y < m.h && #[trigger] ((m.to_y + y) * fh) <= x / width < (m.to_y + y) * fh + fw
        && m.to_x * fw <= x % width < m.to_x * fw + m.w * fw
}

/// Which rows of the block the first `n` row steps of a move moved: top
/// rows first when moving up, bottom rows first otherwise.
pub open spec fn move_done(m: CellMove, y: int, n: int) -> bool {
    if m.from_y > m.to_y { y < n } else { y >= m.h - n }
}

proof fn lemma_move_rows_effect(p: Seq<u32>, m: CellMove, n: int, width: int, height: int, fw: int, fh: int)
    requires
        move_fits(m, width, height, fw, fh),
        p.len() == width * height,
        0 <= n <= m.h,
    ensures
        move_rows(p, m, n, width, fw, fh).len() == p.len(),
        forall|y: int, py: int, cx: int|
            #![trigger move_dst(m, y, py, cx, width, fw, fh)]
            0 <= y < m.h && 0 <= py < fw && 0 <= cx < m.w * fw && move_done(m, y, n)
                ==> move_rows(p, m, n, width, fw, fh)[move_dst(m, y, py, cx, width, fw, fh)] == p[move_src(m, y, py, cx, width, fw, fh)],
        forall|y: int, py: int, cx: int|
            #![trigger move_src(m, y, py, cx, width, fw, fh)]
            0 <= y < m.h && 0 <= py < fw && 0 <= cx < m.w * fw && !move_done(m, y, n)
                ==> move_rows(p, m, n, width, fw, fh)[move_src(m, y, py, cx, width, fw, fh)] == p[move_src(m, y, py, cx, width, fw, fh)],
        forall|x: int| 0 <= x < p.len() && !in_move_target(m, x, width, fw, fh) ==> #[trigger] move_rows(p, m, n, width, fw, fh)[x] == p[x],
    decreases n,
{
    if n > 0 {
        lemma_move_rows_effect(p, m, n - 1, width, height, fw, fh);
        let s0 = move_rows(p, m, n - 1, width, fw, fh);
        let s1 = move_rows(p, m, n, width, fw, fh);
        lemma_move_lines_effect(s0, m, n - 1, fw, width, height, fw, fh);
        assert(s1 == move_lines(s0, m, n - 1, fw, width, fw, fh));
        let y0 = move_row(m, n - 1);
        assert(0 <= y0 < m.h);
        assert(!move_done(m, y0, n - 1));
        assert forall|y: int, py: int, cx: int|
            #![trigger move_dst(m, y, py, cx, width, fw, fh)]
            0 <= y < m.h && 0 <= py < fw && 0 <= cx < m.w * fw && move_done(m, y, n)
                implies s1[move_dst(m, y, py, cx, width, fw, fh)] == p[move_src(m, y, py, cx, width, fw, fh)] by {
            if y == y0 {
                assert(s1[move_dst(m, y0, py, cx, width, fw, fh)] == s0[move_src(m, y0, py, cx, width, fw, fh)]);
            } else {
                assert(move_done(m, y, n - 1));
                let x = move_dst(m, y, py, cx, width, fw, fh);
                lemma_cell_pos(m.to_y + y, m.to_x as int, py, cx, width, fw, fh);
                assert((m.to_y + y + 1) * fh <= height) by (nonlinear_arith)
                    requires m.to_y + y + 1 <= m.to_y + m.h, (m.to_y + m.h) * fh <= height, fh >= 0;
                assert(m.to_x * fw + cx + 1 <= m.to_x * fw + m.w * fw);
                lemma_cell_bound(m.to_y + y, m.to_x as int, py, width, height, fw, fh, cx + 1);
                lemma_line_outside(m.to_y + y, m.to_y + y0, py, fw, fh);
                assert(s1[x] == s0[x]);
            }
        }
        assert forall|y: int, py: int, cx: int|
            #![trigger move_src(m, y, py, cx, width, fw, fh)]
            0 <= y < m.h && 0 <= py < fw && 0 <= cx < m.w * fw && !move_done(m, y, n)
                implies s1[move_src(m, y, py, cx, width, fw, fh)] == p[move_src(m, y, py, cx, width, fw, fh)] by {
            assert(y != y0);
            assert(!move_done(m, y, n - 1));
            let x = move_src(m, y, py, cx, width, fw, fh);
            lemma_cell_pos(m.from_y + y, m.from_x as int, py, cx, width, fw, fh);
            assert((m.from_y + y + 1) * fh <= height) by (nonlinear_arith)
                requires m.from_y + y + 1 <= m.from_y + m.h, (m.from_y + m.h) * fh <= height, fh >= 0;
            assert(m.from_x * fw + cx + 1 <= m.from_x * fw + m.w * fw);
            lemma_cell_bound(m.from_y + y, m.from_x as int, py, width, height, fw, fh, cx + 1);
            assert(m.from_y + y != m.to_y + y0);
            lemma_line_outside(m.from_y + y, m.to_y + y0, py, fw, fh);
            assert(s1[x] == s0[x]);
        }
        assert forall|x: int| 0 <= x < p.len() && !in_move_target(m, x, width, fw, fh) implies #[trigger] s1[x] == p[x] by {
            if (m.to_y + y0) * fh <= x / width < (m.to_y + y0) * fh + fw && m.to_x * fw <= x % width < m.to_x * fw + m.w * fw {
                assert(in_move_target(m, x, width, fw, fh));
            }
            assert(s1[x] == s0[x]);
        }
    }
}

/// Drawing a move of text cells copies the source block onto the target
/// block as it was before the move, whether the two overlap or not: each
/// pixel of the target's row `y` gets the pixel of the source's row `y`
/// from before the move (for the pixel lines of a row that a move copies:
/// the first `font.width` of them), and no other pixel changes.
pub proof fn lemma_move_copies_block(d: Drawn, m: CellMove, font: ConsoleFont, width: int, height: int)
    requires
        move_fits(m, width, height, font.width as int, font.height as int),
        d.0.len() == width * height,
    ensures
        forall|y: int, py: int, cx: int|
            #![trigger move_dst(m, y, py, cx, width, font.width as int, font.height as int)]
            0 <= y < m.h && 0 <= py < font.width && 0 <= cx < m.w * font.width ==> {
                let q = draw_events(d, seq![ConsoleEvent::Move { m }], font, width, height).0;
                &&& q[move_dst(m, y, py, cx, width, font.width as int, font.height as int)]
                    == d.0[move_src(m, y, py, cx, width, font.width as int, font.height as int)]
                &&& draw_event(d, ConsoleEvent::Move { m }, font, width, height).0[move_dst(m, y, py, cx, width, font.width as int, font.height as int)]
                    == d.0[move_src(m, y, py, cx, width, font.width as int, font.height as int)]
            },
        forall|x: int| 0 <= x < d.0.len() && !in_move_target(m, x, width, font.width as int, font.height as int)
            ==> #[trigger] draw_event(d, ConsoleEvent::Move { m }, font, width, height).0[x] == d.0[x],
{
    let fw = font.width as int;
    let fh = font.height as int;
    lemma_move_rows_effect(d.0, m, m.h as int, width, height, fw, fh);
    let es = seq![ConsoleEvent::Move { m }];
    assert(es.drop_last() =~= Seq::<ConsoleEvent>::empty());
    assert(draw_events(d, es.drop_last(), font, width, height) == d);
    assert(draw_events(d, es, font, width, height) == draw_event(d, ConsoleEvent::Move { m }, font, width, height));
    assert forall|y: int| 0 <= y < m.h implies move_done(m, y, m.h as int) by {}
}

/// A color of the terminal emulator: a palette entry or a 24-bit color.
#[derive(Debug, Copy, Clone, PartialEq, Eq, Structural)]
pub enum ConsoleColor {
    Ansi(u8),
    TrueColor(u8, u8, u8),
}

/// What the terminal emulator asks of the screen while it parses output.
#[derive(Debug, Clone)]
pub enum ConsoleEvent {
    /// Draw character `c` in the cell `(x, y)`.
    Char { x: usize, y: usize, c: char, bold: bool, color: ConsoleColor },
    /// Bytes to hand back to the program as input (terminal replies).
    Input { data: Vec<u8> },
    /// Fill `w * h` cells from `(x, y)` with a color.
    Rect { x: usize, y: usize, w: usize, h: usize, color: ConsoleColor },
    /// Move a block of cells.
    Move { m: CellMove },
    /// An event with no effect on the screen (screen buffer switch, resize,
    /// title).
    Other,
}

/// The cursor of the terminal emulator and the size of its grid, in cells.
#[derive(Debug, Copy, Clone, PartialEq, Eq, Structural)]
pub struct CursorState {
    pub x: usize,
    pub y: usize,
    pub w: usize,
    pub h: usize,
    pub cursor: bool,
}

/// The cell range that changed during a write: the smallest and largest
/// column and line touched.
#[derive(Debug, Copy, Clone, PartialEq, Eq, Structural)]
pub struct Changed {
    pub min_x: usize,
    pub max_x: usize,
    pub min_y: usize,
    pub max_y: usize,
}

/// Column `col` changed.
pub open spec fn col_changed(t: Changed, col: usize) -> Changed {
    Changed {
        min_x: if col < t.min_x { col } else { t.min_x },
        max_x: if col > t.max_x { col } else { t.max_x },
        ..t
    }
}

/// Line `line` changed.
pub open spec fn line_changed(t: Changed, line: usize) -> Changed {
    Changed {
        min_y: if line < t.min_y { line } else { t.min_y },
        max_y: if line > t.max_y { line } else { t.max_y },
        ..t
    }
}

/// Columns `x .. x + w` changed (the last one clamped to the largest `usize`).
pub open spec fn cols_changed(t: Changed, x: usize, w: usize) -> Changed {
    if w == 0 {
        t
    } else {
        col_changed(col_changed(t, x), clamp(x + w - 1) as usize)
    }
}

/// Lines `y .. y + h` changed (the last one clamped to the largest `usize`).
pub open spec fn lines_changed(t: Changed, y: usize, h: usize) -> Changed {
    if h == 0 {
        t
    } else {
        line_changed(line_changed(t, y), clamp(y + h - 1) as usize)
    }
}

fn track_col(t: &mut Changed, col: usize)
    ensures
        *final(t) == col_changed(*old(t), col),
{
    if col < t.min_x {
        t.min_x = col;
    }
    if col > t.max_x {
        t.max_x = col;
    }
}

fn track_line(t: &mut Changed, line: usize)
    ensures
        *final(t) == line_changed(*old(t), line),
{
    if line < t.min_y {
        t.min_y = line;
    }
    if line > t.max_y {
        t.max_y = line;
    }
}

fn track_cols(t: &mut Changed, x: usize, w: usize)
    ensures
        *final(t) == cols_changed(*old(t), x, w),
{
    if w > 0 {
        track_col(t, x);
        let last = clamp_add(x, w - 1);
        track_col(t, last);
    }
}

fn track_lines(t: &mut Changed, y: usize, h: usize)
    ensures
        *final(t) == lines_changed(*old(t), y, h),
{
    if h > 0 {
        track_line(t, y);
        let last = clamp_add(y, h - 1);
        track_line(t, last);
    }
}

/// The screen being drawn: its pixels, the cells that changed and the
/// input the terminal emulator produced.
pub type Drawn = (Seq<u32>, Changed, Seq<u8>);

/// An opaque pixel of the channels `r`, `g`, `b`.
pub open spec fn opaque_rgb(r: int, g: int, b: int) -> u32 {
    (0xFF00_0000 + r * 0x1_0000 + g * 0x100 + b) as u32
}

/// A level of the 6x6x6 color cube of the 256-color palette.
pub open spec fn cube_level(v: int) -> int {
    if v == 0 { 0 } else { v * 0x28 + 0x28 }
}

/// The pixel value of a terminal color, as `ransid` gives it: a 24-bit
/// color as it is; of the 256-color palette, the 16 standard colors, then
/// the 6x6x6 color cube, then 24 grays.
pub open spec fn ransid_color_rgb(c: ConsoleColor) -> u32 {
    match c {
        ConsoleColor::TrueColor(r, g, b) => opaque_rgb(r as int, g as int, b as int),
        ConsoleColor::Ansi(v) => if v < 16 {
            let t: Seq<(int, int, int)> = seq![
                (0x00, 0x00, 0x00), (0x80, 0x00, 0x00), (0x00, 0x80, 0x00), (0x80, 0x80, 0x00),
                (0x00, 0x00, 0x80), (0x80, 0x00, 0x80), (0x00, 0x80, 0x80), (0xc0, 0xc0, 0xc0),
                (0x80, 0x80, 0x80), (0xff, 0x00, 0x00), (0x00, 0xff, 0x00), (0xff, 0xff, 0x00),
                (0x00, 0x00, 0xff), (0xff, 0x00, 0xff), (0x00, 0xff, 0xff), (0xff, 0xff, 0xff),
            ];
            opaque_rgb(t[v as int].0, t[v as int].1, t[v as int].2)
        } else if v < 232 {
            let i = v - 16;
            opaque_rgb(cube_level(i / 36 % 6), cube_level(i / 6 % 6), cube_level(i % 6))
        } else {
            let gray = (v - 232) * 10 + 8;
            opaque_rgb(gray, gray, gray)
        },
    }
}

/// The screen after one event, drawn with a `fw` x `fh` font on a display
/// of `width` x `height` pixels.
pub open spec fn draw_event(
    d: Drawn,
    e: ConsoleEvent,
    font: ConsoleFont,
    width: int,
    height: int,
) -> Drawn {
    let fw = font.width as int;
    let fh = font.height as int;
    match e {
        ConsoleEvent::Char { x, y, c, bold, color } => (
            spec_char(
                d.0,
                width,
                height,
                x * fw,
                y * fh,
                font.glyphs@,
                fw,
                fh,
                c as int,
                ransid_color_rgb(color),
            ),
            line_changed(col_changed(d.1, x), y),
            d.2,
        ),
        ConsoleEvent::Input { data } => (d.0, d.1, d.2 + data@),
        ConsoleEvent::Rect { x, y, w, h, color } => (
            spec_rect_op(
                d.0,
                width,
                height,
                x * fw,
                y * fh,
                w * fw,
                h * fh,
                paint(ransid_color_rgb(color)),
            ),
            cols_changed(lines_changed(d.1, y, h), x, w),
            d.2,
        ),
        ConsoleEvent::Move { m } => (
            move_rows(d.0, m, m.h as int, width, fw, fh),
            if m.h == 0 {
                d.1
            } else {
                lines_changed(cols_changed(d.1, m.to_x, m.w), m.to_y, m.h)
            },
            d.2,
        ),
        ConsoleEvent::Other => d,
    }
}

/// The screen after a sequence of events.
pub open spec fn draw_events(
    d: Drawn,
    events: Seq<ConsoleEvent>,
    font: ConsoleFont,
    width: int,
    height: int,
) -> Drawn
    decreases events.len(),
{
    if events.len() == 0 {
        d
    } else {
        draw_event(
            draw_events(d, events.drop_last(), font, width, height),
            events.last(),
            font,
            width,
            height,
        )
    }
}


#[verifier::external_type_specification]
#[verifier::external_body]
pub struct ExColor(ransid::Color);

#[verifier::external_type_specification]
#[verifier::external_body]
pub struct ExEvent<'a>(ransid::Event<'a>);

/// `ransid::Color::as_rgb` on the color: the pixel value of a palette entry
/// or of a 24-bit color, as `ransid_color_rgb` states it.
#[verifier::external_body]
fn color_rgb(c: ConsoleColor) -> (rgb: u32)
    ensures
        rgb == ransid_color_rgb(c),
{
    let color = match c {
        ConsoleColor::Ansi(v) => ransid::Color::Ansi(v),
        ConsoleColor::TrueColor(r, g, b) => ransid::Color::TrueColor(r, g, b),
    };
    color.as_rgb()
}

/// The library's form of a terminal color.
#[verifier::external_body]
fn color_from_ransid(c: ransid::Color) -> ConsoleColor {
    match c {
        ransid::Color::Ansi(v) => ConsoleColor::Ansi(v),
        ransid::Color::TrueColor(r, g, b) => ConsoleColor::TrueColor(r, g, b),
    }
}

/// The library's form of a terminal event; the events with no effect on
/// the screen become `Other`.
#[verifier::external_body]
fn event_from_ransid(e: ransid::Event) -> ConsoleEvent {
    match e {
        ransid::Event::Char { x, y, c, bold, color, .. } => ConsoleEvent::Char { x, y, c, bold, color: color_from_ransid(color) },
        ransid::Event::Input { data } => ConsoleEvent::Input { data: data.to_vec() },
        ransid::Event::Rect { x, y, w, h, color } => ConsoleEvent::Rect { x, y, w, h, color: color_from_ransid(color) },
        ransid::Event::Move { from_x, from_y, to_x, to_y, w, h } => ConsoleEvent::Move { m: CellMove { from_x, from_y, to_x, to_y, w, h } },
        _ => ConsoleEvent::Other,
    }
}

/// `buf` holds no escape byte (0x1B), so no escape sequence starts in it.
pub open spec fn no_escape(buf: Seq<u8>) -> bool {
    forall|i: int| 0 <= i < buf.len() ==> buf[i] != 0x1Bu8
}

/// A parameter byte of a control sequence: a digit or `;`.
pub open spec fn param_byte(b: u8) -> bool {
    (0x30u8 <= b && b <= 0x39u8) || b == 0x3Bu8
}

/// The final bytes of the control sequences the console takes: the cursor
/// moves `A` to `H`, `f` and `d`, the erasures `J` and `K`, deleting and
/// inserting characters (`P`, `@`), the attributes `m`, saving and
/// restoring the cursor (`s`, `u`) and the reports `c` and `n`. Margins
/// (`r`) are not taken.
pub open spec fn taken_final(b: u8) -> bool {
    ||| 0x40u8 <= b && b <= 0x48u8
    ||| b == 0x4Au8 || b == 0x4Bu8 || b == 0x50u8
    ||| b == 0x63u8 || b == 0x64u8 || b == 0x66u8 || b == 0x6Du8 || b == 0x6Eu8
    ||| b == 0x73u8 || b == 0x75u8
}

/// The final bytes whose handlers add the count to the cursor (`B`, `C`):
/// the count must stay far from the largest `i64`.
pub open spec fn adding_final(b: u8) -> bool {
    b == 0x42u8 || b == 0x43u8
}

/// The mode changes `h` and `l`; those of mode 3 (132 or 80 columns) are
/// not taken.
pub open spec fn mode_final(b: u8) -> bool {
    b == 0x68u8 || b == 0x6Cu8
}

/// The bytes of `s` up to its first `;`: the first parameter.
pub open spec fn first_param(s: Seq<u8>) -> Seq<u8>
    decreases s.len(),
{
    if s.len() == 0 || s[0] == 0x3Bu8 {
        Seq::empty()
    } else {
        seq![s[0]] + first_param(s.drop_first())
    }
}

/// The number the decimal digits `d` write (0 for none).
pub open spec fn digits_value(d: Seq<u8>) -> int
    decreases d.len(),
{
    if d.len() == 0 {
        0
    } else {
        digits_value(d.drop_last()) * 10 + (d.last() - 0x30u8)
    }
}

/// Where the parameters of a control sequence starting at `i` begin: after
/// `ESC [`, and after a `?` that follows it.
pub open spec fn params_start(buf: Seq<u8>, i: int) -> int {
    if i + 2 < buf.len() && buf[i + 2] == 0x3Fu8 { i + 3 } else { i + 2 }
}

/// The scrolls `S` and `T`: taken for a count of at most the grid's
/// height `h`.
pub open spec fn scroll_final(b: u8) -> bool {
    b == 0x53u8 || b == 0x54u8
}

/// The count of a control sequence whose parameters are `ps`: its first
/// parameter, 1 when there is none.
pub open spec fn first_count(ps: Seq<u8>) -> int {
    if ps.len() == 0 { 1 } else { digits_value(first_param(ps)) }
}

/// `buf[i..=j]` is a control sequence the console takes on a grid `h`
/// lines high: the escape byte, `[`, maybe `?`, parameter bytes (at most 18
/// of them when the count is added to the cursor) and a final byte it
/// takes.
pub open spec fn taken_csi(buf: Seq<u8>, h: int, i: int, j: int) -> bool {
    let p = params_start(buf, i);
    let ps = buf.subrange(p, j);
    &&& 0 <= i && p <= j && j < buf.len()
    &&& buf[i] == 0x1Bu8 && buf[i + 1] == 0x5Bu8
    &&& forall|k: int| p <= k < j ==> param_byte(#[trigger] buf[k])
    &&& {
        ||| taken_final(buf[j])
        ||| mode_final(buf[j]) && digits_value(first_param(ps)) != 3
        ||| scroll_final(buf[j]) && first_count(ps) <= h
    }
    &&& adding_final(buf[j]) ==> j - p <= 18
}

/// The final bytes of the other escape sequences the console takes: all
/// those the parser dispatches (right after the escape byte, those that do
/// not open a control sequence or a string) but `D` and `E`, which move the
/// cursor down without bringing it back onto the grid.
pub open spec fn esc_final(b: u8, direct: bool) -> bool {
    &&& 0x30u8 <= b && b <= 0x7Eu8
    &&& b != 0x44u8 && b != 0x45u8
    &&& direct ==> b != 0x50u8 && b != 0x58u8 && b != 0x5Bu8 && b != 0x5Du8 && b != 0x5Eu8 && b != 0x5Fu8
}

/// `buf[i..=j]` is an escape sequence the console takes that is not a
/// control sequence: the escape byte, intermediate bytes (0x20 to 0x2F)
/// and a final byte of `esc_final`.
pub open spec fn taken_esc(buf: Seq<u8>, i: int, j: int) -> bool {
    &&& 0 <= i < j < buf.len()
    &&& buf[i] == 0x1Bu8
    &&& forall|k: int| i < k < j ==> 0x20u8 <= #[trigger] buf[k] && buf[k] <= 0x2Fu8
    &&& esc_final(buf[j], j == i + 1)
}

/// Every escape byte of `buf` starts an escape sequence the console takes
/// on a grid `h` lines high. With these alone the emulator keeps its whole
/// grid as scrolling region and its width, so the cursor never leaves the
/// grid by more than one line or column, no scroll is by more lines than
/// the grid has, and no handler overflows.
pub open spec fn escapes_taken(buf: Seq<u8>, h: int) -> bool {
    forall|i: int| 0 <= i < buf.len() && buf[i] == 0x1Bu8 ==> exists|j: int| #[trigger] taken_csi(buf, h, i, j) || taken_esc(buf, i, j)
}

/// Every byte of `buf` is ASCII.
pub open spec fn ascii(buf: Seq<u8>) -> bool {
    forall|i: int| 0 <= i < buf.len() ==> buf[i] < 0x80u8
}

/// The characters the printable bytes (0x20 to 0x7F) of `buf` stand for,
/// in order.
pub open spec fn printed(buf: Seq<u8>) -> Seq<char>
    decreases buf.len(),
{
    if buf.len() == 0 {
        Seq::empty()
    } else {
        printed(buf.drop_last()) + if 0x20u8 <= buf.last() && buf.last() <= 0x7Fu8 {
            seq![buf.last() as char]
        } else {
            Seq::empty()
        }
    }
}

/// The characters of the `Char` events, in order.
pub open spec fn event_chars(events: Seq<ConsoleEvent>) -> Seq<char>
    decreases events.len(),
{
    if events.len() == 0 {
        Seq::empty()
    } else {
        event_chars(events.drop_last()) + match events.last() {
            ConsoleEvent::Char { c, .. } => seq![c],
            _ => Seq::empty(),
        }
    }
}

/// The events `ransid::Console::write` raises, in order, for `buf` on an
/// emulator with a `w` x `h` grid and its cursor at `(x, y)` (and every
/// other setting as `ransid::Console::new` makes it), and the column and
/// line where it leaves the cursor.
pub uninterp spec fn ransid_write(x: usize, y: usize, w: usize, h: usize, buf: Seq<u8>) -> (Seq<ConsoleEvent>, usize, usize);

/// `ransid::Console::write` on an emulator made by `ransid::Console::new(w,
/// h)` with its cursor moved to `(x, y)`: the events it raises for `buf`,
/// in order, and the cursor after. On a grid that is not empty with the
/// cursor on it (or just past its last column), the printing and
/// control-character handlers and the handlers of the control sequences of
/// `escapes_taken` do not panic; the cursor stays on the grid (or just past
/// its last column), and no bytes leave everything as it was. Without an
/// escape byte each printable ASCII byte raises one `Char` event for its
/// character and nothing raises `Input`. The events of control sequences
/// are named, not written out.
#[verifier::external_body]
fn console_write(x: usize, y: usize, w: usize, h: usize, buf: &[u8]) -> (r: (Vec<ConsoleEvent>, usize, usize))
    requires
        1 <= w <= isize::MAX / 2,
        1 <= h <= isize::MAX / 2,
        x <= w,
        y < h,
        escapes_taken(buf@, h as int),
    ensures
        (r.0@, r.1, r.2) == ransid_write(x, y, w, h, buf@),
        r.1 <= w,
        r.2 < h,
        buf@.len() == 0 ==> r.0@.len() == 0 && r.1 == x && r.2 == y,
        no_escape(buf@) && ascii(buf@) ==> event_chars(r.0@) == printed(buf@),
        no_escape(buf@) ==> forall|i: int| 0 <= i < r.0@.len() ==> !(r.0@[i] is Input),
{
    let mut console = ransid::Console::new(w, h);
    console.state.x = x;
    console.state.y = y;
    let mut events: Vec<ConsoleEvent> = Vec::new();
    console.write(buf, |e| events.push(event_from_ransid(e)));
    (events, console.state.x, console.state.y)
}

/// A console font whose glyphs can be drawn: glyphs at most 8 pixels wide
/// (one byte per glyph row) and a size that is not zero.
pub open spec fn font_wf(font: ConsoleFont) -> bool {
    &&& 0 < font.width <= 8
    &&& 0 < font.height <= u32::MAX
    &&& font.glyphs@.len() < usize::MAX
}

/// Draws the events raised by the terminal emulator on the display, in
/// order, tracking the cells that changed in `changed` and queueing the
/// emulator's replies in `input`.
pub fn draw_console_events(
    map: &mut DisplayMap,
    font: &ConsoleFont,
    events: &Vec<ConsoleEvent>,
    changed: &mut Changed,
    input: &mut VecDeque<u8>,
)
    requires
        old(map).wf(),
        font_wf(*font),
    ensures
        final(map).wf(),
        final(map).width == old(map).width,
        final(map).height == old(map).height,
        (final(map).pixels@, *final(changed), final(input)@) == draw_events(
            (old(map).pixels@, *old(changed), old(input)@),
            events@,
            *font,
            old(map).width as int,
            old(map).height as int,
        ),
{
    let ghost start: Drawn = (map.pixels@, *changed, input@);
    let fw = font.width;
    let fh = font.height;
    let mut i: usize = 0;
    while i < events.len()
        invariant
            map.wf(),
            map.width == old(map).width,
            map.height == old(map).height,
            font_wf(*font),
            fw == font.width,
            fh == font.height,
            i <= events.len(),
            start == (old(map).pixels@, *old(changed), old(input)@),
            (map.pixels@, *changed, input@) == draw_events(start, events@.take(i as int), *font, map.width as int, map.height as int),
        decreases events.len() - i,
    {
        proof {
            assert(events@.take(i + 1).drop_last() =~= events@.take(i as int));
        }
        match &events[i] {
            ConsoleEvent::Char { x, y, c, bold: _, color } => {
                let px = clamp_mul(*x, fw);
                let py = clamp_mul(*y, fh);
                let rgb = color_rgb(*color);
                let ghost before = map.pixels@;
                char_op(map, px, py, *c, font, rgb);
                proof {
                    // A clamped corner lies past the display, as the exact one does.
                    assert(spec_char(before, map.width as int, map.height as int, px as int, py as int, font.glyphs@, fw as int, fh as int, *c as int, rgb)
                        == spec_char(before, map.width as int, map.height as int, *x * fw, *y * fh, font.glyphs@, fw as int, fh as int, *c as int, rgb));
                }
                track_col(changed, *x);
                track_line(changed, *y);
            },
            ConsoleEvent::Input { data } => {
                let mut k: usize = 0;
                let ghost base = input@;
                while k < data.len()
                    invariant
                        k <= data@.len(),
                        input@ == base + data@.take(k as int),
                    decreases data.len() - k,
                {
                    input.push_back(data[k]);
                    k += 1;
                    assert(input@ =~= base + data@.take(k as int));
                }
                assert(data@.take(data@.len() as int) =~= data@);
            },
            ConsoleEvent::Rect { x, y, w, h, color } => {
                let rgb = color_rgb(*color);
                let px = clamp_mul(*x, fw);
                let py = clamp_mul(*y, fh);
                let pw = clamp_mul(*w, fw);
                let ph = clamp_mul(*h, fh);
                let ghost before = map.pixels@;
                rect_op(map, px, py, pw, ph, rgb, false);
                proof {
                    lemma_clamp_add(*x * fw, *w * fw);
                    lemma_clamp_add(*y * fh, *h * fh);
                    assert(clip_rect(map.width as int, map.height as int, px as int, py as int, pw as int, ph as int)
                        == clip_rect(map.width as int, map.height as int, *x * fw, *y * fh, *w * fw, *h * fh)) by {
                        assert(*x * fw >= 0 && *w * fw >= 0 && *y * fh >= 0 && *h * fh >= 0) by (nonlinear_arith)
                            requires *x >= 0, *w >= 0, *y >= 0, *h >= 0, fw >= 0, fh >= 0;
                    }
                }
                track_lines(changed, *y, *h);
                track_cols(changed, *x, *w);
            },
            ConsoleEvent::Move { m } => {
                move_op(map, *m, fw, fh);
                if m.h > 0 {
                    track_cols(changed, m.to_x, m.w);
                    track_lines(changed, m.to_y, m.h);
                }
            },
            ConsoleEvent::Other => {},
        }
        i += 1;
    }
    assert(events@.take(events@.len() as int) =~= events@);
}

/// The glyphs of the built-in 8x16 font (`orbclient::FONT`): 16 bytes for
/// each of its 65534 glyphs.
#[verifier::external_body]
fn default_font_glyphs() -> (g: Vec<u8>)
    ensures
        g@.len() == 1048544,
{
    orbclient::FONT.to_vec()
}

/// The cursor moved back onto the grid: a column or line past the grid goes
/// to the last one.
pub open spec fn clamp_cursor(st: CursorState) -> CursorState {
    CursorState {
        x: if st.x >= st.w { (st.w - 1) as usize } else { st.x },
        y: if st.y >= st.h { (st.h - 1) as usize } else { st.y },
        ..st
    }
}

/// The cursor is drawn: it is visible and on the grid.
pub open spec fn cursor_shown(st: CursorState) -> bool {
    st.cursor && st.x < st.w && st.y < st.h
}

/// The cursor cell inverted.
pub open spec fn invert_cursor(p: Seq<u32>, st: CursorState, font: ConsoleFont, width: int, height: int) -> Seq<u32> {
    spec_rect_op(
        p,
        width,
        height,
        st.x * font.width,
        st.y * font.height,
        font.width as int,
        font.height as int,
        invert_bits(),
    )
}

/// Hiding the cursor before a write: its cell is inverted back and counts
/// as changed.
pub open spec fn hide_cursor(d: Drawn, st: CursorState, font: ConsoleFont, width: int, height: int) -> Drawn {
    if cursor_shown(st) {
        (invert_cursor(d.0, st, font, width, height), line_changed(col_changed(d.1, st.x), st.y), d.2)
    } else {
        d
    }
}

/// Showing the cursor after a write: its cell is inverted and its line
/// counts as changed.
pub open spec fn show_cursor(d: Drawn, st: CursorState, font: ConsoleFont, width: int, height: int) -> Drawn {
    if cursor_shown(st) {
        (invert_cursor(d.0, st, font, width, height), line_changed(d.1, st.y), d.2)
    } else {
        d
    }
}

/// `v` saturated to the largest `u32`.
pub open spec fn sat32(v: int) -> u32 {
    if v > u32::MAX { u32::MAX } else { v as u32 }
}

/// The pixel rectangle covering the changed cells (values past `u32::MAX`
/// saturate).
pub open spec fn damage_of(t: Changed, fw: int, fh: int) -> Damage {
    let dx = if t.max_x >= t.min_x { t.max_x - t.min_x } else { 0 };
    let dy = if t.max_y >= t.min_y { t.max_y - t.min_y } else { 0 };
    Damage {
        x: sat32(sat32(t.min_x as int) * fw),
        y: sat32(sat32(t.min_y as int) * fh),
        width: sat32(sat32(dx + 1) * fw),
        height: sat32(sat32(dy + 1) * fh),
    }
}

/// What one write to the terminal does to the screen: the cursor, moved
/// back onto the grid, is hidden; the events are drawn; the cursor is shown
/// where the emulator left it. Cells are tracked from "nothing changed".
pub open spec fn write_outcome(
    p: Seq<u32>,
    input: Seq<u8>,
    before: CursorState,
    events: Seq<ConsoleEvent>,
    after: CursorState,
    font: ConsoleFont,
    width: int,
    height: int,
) -> Drawn {
    let t0 = Changed { min_x: width as usize, max_x: 0, min_y: height as usize, max_y: 0 };
    let hidden = hide_cursor((p, t0, input), clamp_cursor(before), font, width, height);
    show_cursor(draw_events(hidden, events, font, width, height), after, font, width, height)
}

/// One write ended with pixels `p2`, input `input2` and `damage`, given
/// the cursor the emulator had before, its events and its cursor after.
pub open spec fn write_result(
    p: Seq<u32>,
    input: Seq<u8>,
    before: CursorState,
    events: Seq<ConsoleEvent>,
    after: CursorState,
    font: ConsoleFont,
    width: int,
    height: int,
    p2: Seq<u32>,
    input2: Seq<u8>,
    damage: Damage,
) -> bool {
    let o = write_outcome(p, input, before, events, after, font, width, height);
    &&& before.w == width / (font.width as int)
    &&& before.h == height / (font.height as int)
    &&& p2 == o.0
    &&& input2 == o.2
    &&& damage == damage_of(o.1, font.width as int, font.height as int)
}

fn sat_u32(v: usize) -> (r: u32)
    ensures
        r == sat32(v as int),
{
    if v > 0xFFFF_FFFFusize { 0xFFFF_FFFF } else { v as u32 }
}

fn sat_mul_u32(a: u32, b: usize) -> (r: u32)
    requires
        b <= u32::MAX,
    ensures
        r == sat32(a * b),
{
    let bb = b as u64;
    assert(a * bb <= 0xFFFF_FFFF * 0xFFFF_FFFF) by (nonlinear_arith)
        requires a <= 0xFFFF_FFFF, bb <= 0xFFFF_FFFF;
    let v = (a as u64) * bb;
    if v > 0xFFFF_FFFFu64 { 0xFFFF_FFFF } else { v as u32 }
}

fn invert_cell(map: &mut DisplayMap, st: CursorState, font: &ConsoleFont)
    requires
        old(map).wf(),
    ensures
        final(map).wf(),
        final(map).width == old(map).width,
        final(map).height == old(map).height,
        final(map).pixels@ == invert_cursor(old(map).pixels@, st, *font, old(map).width as int, old(map).height as int),
{
    let px = clamp_mul(st.x, font.width);
    let py = clamp_mul(st.y, font.height);
    rect_op(map, px, py, font.width, font.height, 0, true);
    proof {
        assert(st.x * font.width >= 0 && st.y * font.height >= 0) by (nonlinear_arith)
            requires st.x >= 0, st.y >= 0, font.width >= 0, font.height >= 0;
        lemma_clamp_add(st.x * font.width, font.width as int);
        lemma_clamp_add(st.y * font.height, font.height as int);
    }
}

/// A text console: where the terminal emulator's cursor is and the size of
/// its grid, and the font it is drawn with.
pub struct TextScreen {
    pub cursor: CursorState,
    pub font: ConsoleFont,
}

/// The cursor and grid a write starts from: the grid takes the display's
/// size in cells (the cursor does not move), then the cursor is moved back
/// onto the grid.
pub open spec fn write_start(cursor: CursorState, font: ConsoleFont, width: int, height: int) -> CursorState {
    clamp_cursor(CursorState { w: (width / (font.width as int)) as usize, h: (height / (font.height as int)) as usize, ..cursor })
}

/// The cursor and grid after a write of `buf` from `start`.
pub open spec fn write_end(start: CursorState, buf: Seq<u8>) -> CursorState {
    let out = ransid_write(start.x, start.y, start.w, start.h, buf);
    CursorState { x: out.1, y: out.2, ..start }
}

impl TextScreen {
    /// A text screen drawn with `font`, or with the built-in 8x16 font, with
    /// a visible cursor in the first cell. The grid takes the display's size
    /// at the first write.
    pub fn new(font: Option<ConsoleFont>) -> (t: TextScreen)
        ensures
            font matches Some(f) ==> t.font == f,
            font is None ==> t.font.width == 8 && t.font.height == 16 && t.font.glyphs@.len() == 1048544,
            t.cursor == (CursorState { x: 0, y: 0, w: 0, h: 0, cursor: true }),
    {
        let font = match font {
            Some(f) => f,
            None => ConsoleFont::new(default_font_glyphs(), 8, 16),
        };
        TextScreen { cursor: CursorState { x: 0, y: 0, w: 0, h: 0, cursor: true }, font }
    }

    /// Writes `buf` to the terminal and draws the result on the display:
    /// the grid takes the display's size in cells, the cursor is hidden,
    /// the emulator's events are drawn in order and its replies queued on
    /// `input`, and the cursor is shown again. Returns the pixel rectangle
    /// covering the cells that changed. The escape sequences taken are
    /// those of `escapes_taken`: the emulator's handlers for scrolling by
    /// more lines than the grid has, margins, the column modes, `ESC D` and
    /// `ESC E` (and cursor moves by counts near the largest `i64`)
    /// overflow once the cursor is far enough from the region they assume. The emulator's state is the
    /// cursor and the grid: it starts afresh from them at each write, so a
    /// UTF-8 character or an escape sequence split across two writes is not
    /// joined, and settings (colours, saved cursor, modes) last one write.
    pub fn write(&mut self, map: &mut DisplayMap, buf: &[u8], input: &mut VecDeque<u8>) -> (damage: Damage)
        requires
            font_wf(old(self).font),
            old(map).wf(),
            old(map).width >= old(self).font.width,
            old(map).height >= old(self).font.height,
            old(map).width <= isize::MAX / 2,
            old(map).height <= isize::MAX / 2,
            escapes_taken(buf@, old(map).height as int / old(self).font.height as int),
        ensures
            final(self).font == old(self).font,
            final(map).wf(),
            final(map).width == old(map).width,
            final(map).height == old(map).height,
            ({
                let start = write_start(old(self).cursor, old(self).font, old(map).width as int, old(map).height as int);
                &&& final(self).cursor == write_end(start, buf@)
                &&& write_result(
                    old(map).pixels@,
                    old(input)@,
                    CursorState { w: start.w, h: start.h, ..old(self).cursor },
                    ransid_write(start.x, start.y, start.w, start.h, buf@).0,
                    write_end(start, buf@),
                    old(self).font,
                    old(map).width as int,
                    old(map).height as int,
                    final(map).pixels@,
                    final(input)@,
                    damage,
                )
            }),
    {
        let fw = self.font.width;
        let fh = self.font.height;
        let width = map.width;
        let height = map.height;
        let before = CursorState { w: width / fw, h: height / fh, ..self.cursor };
        proof {
            vstd::arithmetic::div_mod::lemma_div_is_ordered(fw as int, width as int, fw as int);
            vstd::arithmetic::div_mod::lemma_div_is_ordered(fh as int, height as int, fh as int);
            vstd::arithmetic::div_mod::lemma_div_by_self(fw as int);
            vstd::arithmetic::div_mod::lemma_div_by_self(fh as int);
            vstd::arithmetic::div_mod::lemma_div_is_ordered_by_denominator(width as int, 1, fw as int);
            vstd::arithmetic::div_mod::lemma_div_is_ordered_by_denominator(height as int, 1, fh as int);
        }
        let mut st = before;
        if st.x >= st.w {
            st.x = st.w - 1;
        }
        if st.y >= st.h {
            st.y = st.h - 1;
        }
        assert(st == clamp_cursor(before));
        let mut changed = Changed { min_x: width, max_x: 0, min_y: height, max_y: 0 };
        if st.cursor && st.x < st.w && st.y < st.h {
            invert_cell(map, st, &self.font);
            track_col(&mut changed, st.x);
            track_line(&mut changed, st.y);
        }
        let (events, x2, y2) = console_write(st.x, st.y, st.w, st.h, buf);
        let after = CursorState { x: x2, y: y2, ..st };
        draw_console_events(map, &self.font, &events, &mut changed, input);
        if after.cursor && after.x < after.w && after.y < after.h {
            invert_cell(map, after, &self.font);
            track_line(&mut changed, after.y);
        }
        let dx = changed.max_x.saturating_sub(changed.min_x);
        let dy = changed.max_y.saturating_sub(changed.min_y);
        let damage = Damage {
            x: sat_mul_u32(sat_u32(changed.min_x), fw),
            y: sat_mul_u32(sat_u32(changed.min_y), fh),
            width: sat_mul_u32(sat_u32(clamp_add(dx, 1)), fw),
            height: sat_mul_u32(sat_u32(clamp_add(dy, 1)), fh),
        };
        assert(damage == damage_of(changed, fw as int, fh as int));
        assert(write_result(old(map).pixels@, old(input)@, before, events@, after, self.font, width as int, height as int, map.pixels@, input@, damage));
        self.cursor = after;
        damage
    }
}

/// `a - b`, or 0 when `b` is larger.
pub open spec fn sat_sub(a: int, b: int) -> usize {
    if a >= b { (a - b) as usize } else { 0 }
}

/// The old row shown on row `r` of the resized display, or -1 for a blank
/// row. A display at least as tall keeps every row in place; a shorter one
/// drops `ceil((old_h - new_h) / 16)` text lines from the top (counted in
/// pixel rows of `fh`), keeping the rows that still fit below them.
pub open spec fn resize_source_row(r: int, old_h: int, new_h: int, fh: int) -> int {
    if new_h >= old_h {
        if r < old_h { r } else { -1 }
    } else {
        let d = (old_h - new_h + 15) / 16;
        if r + (d + 1) * fh < old_h { r + d * fh } else { -1 }
    }
}

/// The pixels of the resized display: each kept row copied from its old
/// row up to the narrower of the two widths, everything else black.
pub open spec fn spec_resized(old: Seq<u32>, ow: int, oh: int, nw: int, nh: int, fh: int) -> Seq<u32> {
    Seq::new(
        (nw * nh) as nat,
        |i: int|
            {
                let sr = resize_source_row(i / nw, oh, nh, fh);
                let c = i % nw;
                if sr >= 0 && c < umin(ow, nw) { old[sr * ow + c] } else { 0u32 }
            },
    )
}

/// Resizing keeps the picture in place, pixel by pixel: on a display at
/// least as tall, pixel `(c, r)` keeps the old pixel `(c, r)` where the old
/// display had one and is black elsewhere; on a shorter one, the top
/// `ceil((old height - new height) / 16)` text lines (of `fh` pixel rows)
/// are dropped and pixel `(c, r)` shows the old pixel `(c, r)` of the row
/// that many text lines lower, while that row and the text line after it
/// were on the old display, black otherwise.
pub proof fn lemma_resize_keeps_picture(old: Seq<u32>, ow: int, oh: int, nw: int, nh: int, fh: int)
    requires
        nw > 0,
        nh >= 0,
        ow >= 0,
        fh >= 0,
    ensures
        forall|r: int, c: int| 0 <= r < nh && 0 <= c < nw ==> #[trigger] spec_resized(old, ow, oh, nw, nh, fh)[r * nw + c] == (if nh >= oh {
            if r < oh && c < ow { old[r * ow + c] } else { 0u32 }
        } else {
            let k = (oh - nh + 15) / 16;
            if r + (k + 1) * fh < oh && c < ow { old[(r + k * fh) * ow + c] } else { 0u32 }
        }),
{
    assert forall|r: int, c: int| 0 <= r < nh && 0 <= c < nw implies #[trigger] spec_resized(old, ow, oh, nw, nh, fh)[r * nw + c] == (if nh >= oh {
        if r < oh && c < ow { old[r * ow + c] } else { 0u32 }
    } else {
        let k = (oh - nh + 15) / 16;
        if r + (k + 1) * fh < oh && c < ow { old[(r + k * fh) * ow + c] } else { 0u32 }
    }) by {
        lemma_row_col(nw, r, c);
        lemma_index_bound(nw, nh, r, c);
        assert(nw * nh >= 0) by (nonlinear_arith) requires nw > 0, nh >= 0;
    }
}

fn zeroed(n: usize) -> (v: Vec<u32>)
    ensures
        v@ == Seq::new(n as nat, |i: int| 0u32),
{
    let mut v: Vec<u32> = Vec::new();
    let mut i: usize = 0;
    while i < n
        invariant
            i <= n,
            v@ == Seq::new(i as nat, |k: int| 0u32),
        decreases n - i,
    {
        v.push(0);
        i += 1;
        assert(v@ =~= Seq::new(i as nat, |k: int| 0u32));
    }
    v
}

/// Copies the first `min(src_map.width, new.width)` pixels of row
/// `from_row` to new row `to_row`.
#[verifier::spinoff_prover]
fn copy_row(src_map: &DisplayMap, new: &mut DisplayMap, from_row: usize, to_row: usize)
    requires
        src_map.wf(),
        old(new).wf(),
        from_row < src_map.height,
        to_row < old(new).height,
    ensures
        final(new).wf(),
        final(new).width == old(new).width,
        final(new).height == old(new).height,
        forall|i: int|
            0 <= i < final(new).pixels@.len() ==> final(new).pixels@[i] == if i / (old(new).width as int)
                == to_row && i % (old(new).width as int) < umin(src_map.width as int, old(new).width as int) {
                src_map.pixels@[from_row * src_map.width + i % (old(new).width as int)]
            } else {
                old(new).pixels@[i]
            },
{
    let n = if src_map.width < new.width { src_map.width } else { new.width };
    let ghost start = new.pixels@;
    let nw = new.width;
    if n == 0 {
        proof {
            assert forall|i: int| 0 <= i < new.pixels@.len() implies new.pixels@[i] == start[i] by {}
        }
        return;
    }
    proof {
        lemma_index_bound(src_map.width as int, src_map.height as int, from_row as int, 0);
        lemma_index_bound(nw as int, new.height as int, to_row as int, 0);
    }
    let ob = from_row * src_map.width;
    let nb = to_row * nw;
    let mut x: usize = 0;
    while x < n
        invariant
            new.wf(),
            src_map.wf(),
            new.width == nw,
            new.height == old(new).height,
            start == old(new).pixels@,
            new.pixels@.len() == start.len(),
            nw > 0,
            n <= nw,
            n <= src_map.width,
            ob == from_row * src_map.width,
            nb == to_row * nw,
            ob + src_map.width <= src_map.pixels@.len(),
            nb + nw <= start.len(),
            x <= n,
            forall|i: int| 0 <= i < start.len() && !(nb <= i < nb + x) ==> new.pixels@[i] == start[i],
            forall|i: int| nb <= i < nb + x ==> new.pixels@[i] == src_map.pixels@[ob + i - nb],
        decreases n - x,
    {
        new.pixels.set(nb + x, src_map.pixels[ob + x]);
        x += 1;
    }
    proof {
        assert forall|i: int| 0 <= i < new.pixels@.len() implies new.pixels@[i] == if i / (nw as int)
            == to_row && i % (nw as int) < umin(src_map.width as int, nw as int) {
            src_map.pixels@[from_row * src_map.width + i % (nw as int)]
        } else {
            start[i]
        } by {
            vstd::arithmetic::div_mod::lemma_fundamental_div_mod(i, nw as int);
            lemma_row_of(nw as int, i, to_row as int);
            if nb <= i < nb + n {
                lemma_row_col(nw as int, to_row as int, i - nb);
            }
        }
    }
}

/// The display after a mode change to `new_width` x `new_height` pixels,
/// drawn with a font `fh` pixels high: the rows that still fit are copied,
/// the rest is black.
fn resized_map(old_map: &DisplayMap, new_width: usize, new_height: usize, fh: usize) -> (new_map: DisplayMap)
    requires
        old_map.wf(),
        new_width * new_height < usize::MAX,
    ensures
        new_map.wf(),
        new_map.width == new_width,
        new_map.height == new_height,
        new_map.pixels@ == spec_resized(
            old_map.pixels@,
            old_map.width as int,
            old_map.height as int,
            new_width as int,
            new_height as int,
            fh as int,
        ),
{
    let ow = old_map.width;
    let oh = old_map.height;
    let mut new_map = DisplayMap { pixels: zeroed(new_width * new_height), width: new_width, height: new_height };
    let ghost zero = new_map.pixels@;
    let ghost target = spec_resized(old_map.pixels@, ow as int, oh as int, new_width as int, new_height as int, fh as int);
    if new_width == 0 {
        assert(new_map.pixels@ =~= target);
        return new_map;
    }
    let deleted_rows: usize = if new_height >= oh { 0 } else { (oh - new_height) / 16 + if (oh - new_height) % 16 == 0 { 0 } else { 1 } };
    proof {
        if new_height < oh {
            assert(deleted_rows == (oh - new_height + 15) / 16) by (nonlinear_arith)
                requires
                    deleted_rows == (oh - new_height) / 16 + if (oh - new_height) % 16 == 0 { 0int } else { 1int },
                    oh > new_height;
        }
    }
    let keep_from = clamp_mul(clamp_add(deleted_rows, 1), fh);
    let shift = clamp_mul(deleted_rows, fh);
    proof {
        lemma_clamp_mul(deleted_rows + 1, fh as int);
        lemma_clamp_mul(deleted_rows as int, fh as int);
    }
    let mut row: usize = 0;
    while row < new_height
        invariant
            new_map.wf(),
            new_map.width == new_width,
            new_map.height == new_height,
            new_width > 0,
            old_map.wf(),
            ow == old_map.width,
            oh == old_map.height,
            row <= new_height,
            keep_from == clamp((deleted_rows + 1) * fh),
            shift == clamp(deleted_rows * fh),
            new_height < oh ==> deleted_rows == (oh - new_height + 15) / 16,
            target == spec_resized(old_map.pixels@, ow as int, oh as int, new_width as int, new_height as int, fh as int),
            zero == Seq::new((new_width * new_height) as nat, |i: int| 0u32),
            forall|i: int| 0 <= i < new_map.pixels@.len() ==> new_map.pixels@[i] == if i / (new_width as int) < row { target[i] } else { zero[i] },
        decreases new_height - row,
    {
        proof {
            assert(deleted_rows * fh >= 0 && (deleted_rows + 1) * fh >= deleted_rows * fh) by (nonlinear_arith)
                requires deleted_rows >= 0, fh >= 0;
            lemma_clamp_add(row as int, (deleted_rows + 1) * fh);
        }
        let src: Option<usize> = if new_height >= oh {
            if row < oh { Some(row) } else { None }
        } else {
            let lim = clamp_add(row, keep_from);
            if lim < oh { Some(row + shift) } else { None }
        };
        proof {
            let sr = resize_source_row(row as int, oh as int, new_height as int, fh as int);
            assert(deleted_rows * fh >= 0 && (deleted_rows + 1) * fh >= 0) by (nonlinear_arith)
                requires deleted_rows >= 0, fh >= 0;
            lemma_clamp_add(row as int, (deleted_rows + 1) * fh);
            assert(match src { Some(s) => sr == s, None => sr == -1 });
        }
        let ghost before = new_map.pixels@;
        match src {
            Some(s) => {
                copy_row(old_map, &mut new_map, s, row);
            },
            None => {},
        }
        proof {
            assert forall|i: int| 0 <= i < new_map.pixels@.len() implies new_map.pixels@[i] == if i / (new_width as int) < row + 1 { target[i] } else { zero[i] } by {
                vstd::arithmetic::div_mod::lemma_fundamental_div_mod(i, new_width as int);
            }
        }
        row += 1;
    }
    proof {
        assert(new_width * new_height == new_height * new_width) by (nonlinear_arith);
        assert forall|i: int| 0 <= i < new_map.pixels@.len() implies new_map.pixels@[i] == target[i] by {
            lemma_row_of(new_width as int, i, new_height as int);
        }
        assert(new_map.pixels@ =~= target);
    }
    new_map
}

impl TextScreen {
    /// The display after a mode change to `new_width` x `new_height`
    /// pixels: the rows that still fit are copied, the rest is black. When
    /// the display gets shorter the top lines are dropped and the cursor
    /// moves up as many lines.
    pub fn resize(&mut self, old_map: &DisplayMap, new_width: usize, new_height: usize) -> (new_map: DisplayMap)
        requires
            old_map.wf(),
            new_width * new_height < usize::MAX,
        ensures
            final(self).font == old(self).font,
            final(self).cursor == (if new_height < old_map.height {
                CursorState { y: sat_sub(old(self).cursor.y as int, (old_map.height - new_height + 15) / 16), ..old(self).cursor }
            } else {
                old(self).cursor
            }),
            new_map.wf(),
            new_map.width == new_width,
            new_map.height == new_height,
            new_map.pixels@ == spec_resized(
                old_map.pixels@,
                old_map.width as int,
                old_map.height as int,
                new_width as int,
                new_height as int,
                old(self).font.height as int,
            ),
    {
        let oh = old_map.height;
        if new_height < oh {
            let d = oh - new_height;
            let deleted_rows: usize = d / 16 + if d % 16 == 0 { 0 } else { 1 };
            assert(deleted_rows == (d + 15) / 16) by (nonlinear_arith)
                requires deleted_rows == d / 16 + if d % 16 == 0 { 0int } else { 1int }, d > 0;
            self.cursor.y = self.cursor.y.saturating_sub(deleted_rows);
        }
        resized_map(old_map, new_width, new_height, self.font.height)
    }
}

/// The lines after byte `b` was appended: it goes at the end of the last
/// line, and a newline starts a new, empty line.
pub open spec fn append_byte(ls: Seq<Seq<u8>>, b: u8) -> Seq<Seq<u8>> {
    let ls2 = ls.update(ls.len() - 1, ls.last().push(b));
    if b == 10u8 { ls2.push(Seq::<u8>::empty()) } else { ls2 }
}

/// The lines after `bytes` were appended one by one.
pub open spec fn append_bytes(ls: Seq<Seq<u8>>, bytes: Seq<u8>) -> Seq<Seq<u8>>
    decreases bytes.len(),
{
    if bytes.len() == 0 {
        ls
    } else {
        append_byte(append_bytes(ls, bytes.drop_last()), bytes.last())
    }
}

/// The last `max` lines.
pub open spec fn keep_last(ls: Seq<Seq<u8>>, max: int) -> Seq<Seq<u8>> {
    if ls.len() > max { ls.skip(ls.len() - max) } else { ls }
}

/// All the lines, one after the other.
pub open spec fn flatten(ls: Seq<Seq<u8>>) -> Seq<u8>
    decreases ls.len(),
{
    if ls.len() == 0 {
        Seq::empty()
    } else {
        flatten(ls.drop_last()) + ls.last()
    }
}

/// The contents of each line.
pub open spec fn lines_view(lines: Seq<Vec<u8>>) -> Seq<Seq<u8>> {
    Seq::new(lines.len(), |i: int| lines[i]@)
}

/// A scrollback buffer of the bytes written to a console, split in lines,
/// keeping at most `lines_max` lines.
pub struct TextBuffer {
    pub lines: VecDeque<Vec<u8>>,
    pub lines_max: usize,
}

impl TextBuffer {
    /// An empty buffer: one empty line.
    pub fn new(max: usize) -> (t: TextBuffer)
        ensures
            lines_view(t.lines@) == seq![Seq::<u8>::empty()],
            t.lines_max == max,
    {
        let mut lines: VecDeque<Vec<u8>> = VecDeque::new();
        lines.push_back(Vec::new());
        assert(lines_view(lines@) =~= seq![Seq::<u8>::empty()]);
        TextBuffer { lines, lines_max: max }
    }

    /// Appends `buf`: bytes go at the end of the last line, each newline
    /// starts a new line, then the oldest lines are dropped until at most
    /// `lines_max` remain. Writing nothing changes nothing.
    pub fn write(&mut self, buf: &[u8])
        requires
            buf@.len() > 0 ==> old(self).lines@.len() > 0,
        ensures
            final(self).lines_max == old(self).lines_max,
            buf@.len() == 0 ==> final(self).lines@ == old(self).lines@,
            buf@.len() > 0 ==> lines_view(final(self).lines@) == keep_last(
                append_bytes(lines_view(old(self).lines@), buf@),
                old(self).lines_max as int,
            ),
    {
        if buf.len() == 0 {
            return;
        }
        let ghost start = lines_view(self.lines@);
        let mut i: usize = 0;
        while i < buf.len()
            invariant
                i <= buf@.len(),
                self.lines@.len() > 0,
                self.lines_max == old(self).lines_max,
                start == lines_view(old(self).lines@),
                lines_view(self.lines@) == append_bytes(start, buf@.take(i as int)),
            decreases buf.len() - i,
        {
            let byte = buf[i];
            let ghost before = lines_view(self.lines@);
            let mut last = match self.lines.pop_back() {
                Some(l) => l,
                None => Vec::new(),
            };
            last.push(byte);
            self.lines.push_back(last);
            if byte == 10u8 {
                self.lines.push_back(Vec::new());
            }
            proof {
                assert(buf@.take(i + 1).drop_last() =~= buf@.take(i as int));
                let ls2 = before.update(before.len() - 1, before.last().push(byte));
                if byte == 10u8 {
                    assert(lines_view(self.lines@) =~= ls2.push(Seq::<u8>::empty()));
                } else {
                    assert(lines_view(self.lines@) =~= ls2);
                }
            }
            i += 1;
        }
        assert(buf@.take(buf@.len() as int) =~= buf@);
        let ghost appended = lines_view(self.lines@);
        let max_len = self.lines_max;
        while self.lines.len() > max_len
            invariant
                max_len == self.lines_max,
                appended.len() > max_len ==> self.lines@.len() >= max_len,
                appended.len() <= max_len ==> self.lines@.len() == appended.len(),
                self.lines@.len() <= appended.len(),
                lines_view(self.lines@) == appended.skip(appended.len() - self.lines@.len()),
            decreases self.lines@.len(),
        {
            let ghost before = self.lines@;
            let _ = self.lines.pop_front();
            proof {
                assert forall|k: int| 0 <= k < self.lines@.len() implies lines_view(self.lines@)[k]
                    == appended.skip(appended.len() - self.lines@.len())[k] by {
                    assert(self.lines@[k] == before[k + 1]);
                    assert(lines_view(before)[k + 1] == before[k + 1]@);
                }
                assert(lines_view(self.lines@) =~= appended.skip(appended.len() - self.lines@.len()));
            }
        }
        proof {
            if appended.len() <= max_len {
                assert(appended.skip(0) =~= appended);
                assert(self.lines@.len() == appended.len());
            } else {
                assert(self.lines@.len() == max_len);
            }
            assert(buf@.len() > 0);
            assert(appended == append_bytes(lines_view(old(self).lines@), buf@));
        }
    }
}

proof fn lemma_flatten_update_last(ls: Seq<Seq<u8>>, b: u8)
    requires
        ls.len() > 0,
    ensures
        flatten(ls.update(ls.len() - 1, ls.last().push(b))) == flatten(ls).push(b),
{
    let ls2 = ls.update(ls.len() - 1, ls.last().push(b));
    assert(ls2.drop_last() =~= ls.drop_last());
    assert(flatten(ls.drop_last()) + ls.last().push(b) =~= (flatten(ls.drop_last()) + ls.last()).push(b));
}

/// Writing to a text buffer loses nothing before lines are dropped: the
/// lines hold, one after the other, what they held followed by the bytes
/// written.
pub proof fn lemma_append_keeps_bytes(ls: Seq<Seq<u8>>, bytes: Seq<u8>)
    requires
        ls.len() > 0,
    ensures
        append_bytes(ls, bytes).len() > 0,
        flatten(append_bytes(ls, bytes)) == flatten(ls) + bytes,
    decreases bytes.len(),
{
    if bytes.len() == 0 {
        assert(flatten(ls) + bytes =~= flatten(ls));
    } else {
        let prev = append_bytes(ls, bytes.drop_last());
        lemma_append_keeps_bytes(ls, bytes.drop_last());
        let b = bytes.last();
        lemma_flatten_update_last(prev, b);
        let ls2 = prev.update(prev.len() - 1, prev.last().push(b));
        if b == 10u8 {
            assert(ls2.push(Seq::<u8>::empty()).drop_last() =~= ls2);
            assert(flatten(ls2) + Seq::<u8>::empty() =~= flatten(ls2));
        }
        assert(flatten(ls) + bytes.drop_last() + seq![b] =~= flatten(ls) + bytes);
        assert((flatten(ls) + bytes.drop_last()).push(b) =~= flatten(ls) + bytes);
    }
}

/// The lines kept are the last `max` of them, in order.
pub proof fn lemma_keep_last_suffix(ls: Seq<Seq<u8>>, max: int)
    requires
        max >= 0,
    ensures
        keep_last(ls, max).len() == if ls.len() > max { max } else { ls.len() as int },
        forall|i: int|
            0 <= i < keep_last(ls, max).len() ==> keep_last(ls, max)[i] == ls[ls.len() - keep_last(
                ls,
                max,
            ).len() + i],
{
}

proof fn lemma_append_bytes_len(ls: Seq<Seq<u8>>, bytes: Seq<u8>)
    requires
        ls.len() > 0,
    ensures
        append_bytes(ls, bytes).len() >= ls.len(),
    decreases bytes.len(),
{
    if bytes.len() > 0 {
        lemma_append_bytes_len(ls, bytes.drop_last());
    }
}

proof fn lemma_append_concat(ls: Seq<Seq<u8>>, a: Seq<u8>, b: Seq<u8>)
    ensures
        append_bytes(ls, a + b) == append_bytes(append_bytes(ls, a), b),
    decreases b.len(),
{
    if b.len() == 0 {
        assert(a + b =~= a);
    } else {
        lemma_append_concat(ls, a, b.drop_last());
        assert((a + b).drop_last() =~= a + b.drop_last());
        assert((a + b).last() == b.last());
    }
}

proof fn lemma_append_skip(x: Seq<Seq<u8>>, k: int, bytes: Seq<u8>)
    requires
        0 <= k < x.len(),
    ensures
        append_bytes(x.skip(k), bytes) == append_bytes(x, bytes).skip(k),
    decreases bytes.len(),
{
    if bytes.len() > 0 {
        lemma_append_skip(x, k, bytes.drop_last());
        lemma_append_bytes_len(x, bytes.drop_last());
        let y = append_bytes(x, bytes.drop_last());
        let c = bytes.last();
        let y2 = y.update(y.len() - 1, y.last().push(c));
        assert(y.skip(k).update(y.skip(k).len() - 1, y.skip(k).last().push(c)) =~= y2.skip(k));
        if c == 10u8 {
            assert(y2.skip(k).push(Seq::<u8>::empty()) =~= y2.push(Seq::<u8>::empty()).skip(k));
        }
    }
}

/// Two writes to a text buffer keep what one write of both byte strings
/// keeps: bytes are appended in order and only the last `max` lines stay.
pub proof fn lemma_two_writes(ls: Seq<Seq<u8>>, a: Seq<u8>, b: Seq<u8>, max: int)
    requires
        ls.len() > 0,
        max >= 1,
    ensures
        keep_last(append_bytes(keep_last(append_bytes(ls, a), max), b), max) == keep_last(append_bytes(ls, a + b), max),
{
    lemma_append_concat(ls, a, b);
    let x = append_bytes(ls, a);
    lemma_append_bytes_len(ls, a);
    if x.len() > max {
        let k = x.len() - max;
        lemma_append_skip(x, k, b);
        lemma_append_bytes_len(x.skip(k), b);
        lemma_append_bytes_len(x, b);
        let w = append_bytes(x, b);
        let z = append_bytes(x.skip(k), b);
        assert(z.len() == w.len() - k);
        if z.len() > max {
            assert(z.skip(z.len() - max) =~= w.skip(w.len() - max));
        } else {
            assert(z =~= w.skip(w.len() - max));
        }
    }
}

/// The lines are split at newlines: every line but the last ends with its
/// only newline, and the last holds none.
pub open spec fn line_shape(ls: Seq<Seq<u8>>) -> bool {
    &&& ls.len() >= 1
    &&& forall|i: int| 0 <= i < ls.len() - 1 ==> (#[trigger] ls[i]).len() >= 1 && ls[i].last() == 10u8
        && forall|k: int| 0 <= k < ls[i].len() - 1 ==> ls[i][k] != 10u8
    &&& forall|k: int| 0 <= k < ls.last().len() ==> ls.last()[k] != 10u8
}

proof fn lemma_append_shape(ls: Seq<Seq<u8>>, bytes: Seq<u8>)
    requires
        line_shape(ls),
    ensures
        line_shape(append_bytes(ls, bytes)),
    decreases bytes.len(),
{
    if bytes.len() > 0 {
        lemma_append_shape(ls, bytes.drop_last());
        let y = append_bytes(ls, bytes.drop_last());
        let c = bytes.last();
        let y2 = y.update(y.len() - 1, y.last().push(c));
        assert forall|i: int| 0 <= i < y.len() - 1 implies (#[trigger] y2[i]) == y[i] by {}
        if c == 10u8 {
            let z = y2.push(Seq::<u8>::empty());
            assert forall|i: int| 0 <= i < z.len() - 1 implies (#[trigger] z[i]).len() >= 1 && z[i].last() == 10u8
                && forall|k: int| 0 <= k < z[i].len() - 1 ==> z[i][k] != 10u8 by {
                if i == y.len() - 1 {
                    assert(z[i] == y.last().push(c));
                    assert forall|k: int| 0 <= k < z[i].len() - 1 implies z[i][k] != 10u8 by {
                        assert(z[i][k] == y.last()[k]);
                    }
                } else {
                    assert(z[i] == y[i]);
                }
            }
            assert(z.last() =~= Seq::<u8>::empty());
        } else {
            assert forall|k: int| 0 <= k < y2.last().len() implies y2.last()[k] != 10u8 by {
                if k < y.last().len() {
                    assert(y2.last()[k] == y.last()[k]);
                }
            }
        }
    }
}

/// A write keeps the lines of a text buffer split at newlines, and at most
/// `max` of them.
pub proof fn lemma_write_keeps_shape(ls: Seq<Seq<u8>>, bytes: Seq<u8>, max: int)
    requires
        line_shape(ls),
        max >= 1,
    ensures
        line_shape(keep_last(append_bytes(ls, bytes), max)),
        keep_last(append_bytes(ls, bytes), max).len() <= max,
{
    lemma_append_shape(ls, bytes);
    let x = append_bytes(ls, bytes);
    if x.len() > max {
        let k = x.len() - max;
        let z = x.skip(k);
        assert(z.last() == x.last());
        assert forall|i: int| 0 <= i < z.len() - 1 implies (#[trigger] z[i]).len() >= 1 && z[i].last() == 10u8
            && forall|q: int| 0 <= q < z[i].len() - 1 ==> z[i][q] != 10u8 by {
            assert(z[i] == x[i + k]);
        }
    }
}

/// The number of bytes after the last newline of `s` (all of them when it
/// holds none).
pub open spec fn tail_len(s: Seq<u8>) -> nat
    decreases s.len(),
{
    if s.len() == 0 || s.last() == 10u8 {
        0
    } else {
        1 + tail_len(s.drop_last())
    }
}

proof fn lemma_tail_len(p: Seq<u8>, q: Seq<u8>)
    requires
        p.len() == 0 || p.last() == 10u8,
        forall|k: int| 0 <= k < q.len() ==> q[k] != 10u8,
    ensures
        tail_len(p + q) == q.len(),
    decreases q.len(),
{
    if q.len() == 0 {
        assert(p + q =~= p);
    } else {
        assert((p + q).drop_last() =~= p + q.drop_last());
        assert((p + q).last() == q.last());
        lemma_tail_len(p, q.drop_last());
    }
}

/// The lines without their last one: the text before the last line, which
/// is empty or ends with a newline.
proof fn lemma_shape_prefix(a: Seq<Seq<u8>>)
    requires
        line_shape(a),
    ensures
        flatten(a) == flatten(a.drop_last()) + a.last(),
        a.len() == 1 ==> flatten(a.drop_last()).len() == 0,
        a.len() > 1 ==> flatten(a.drop_last()).len() >= 1 && flatten(a.drop_last()).last() == 10u8,
{
    if a.len() > 1 {
        let a1 = a.drop_last();
        assert(a1.last() == a[a.len() - 2]);
        assert(flatten(a1) == flatten(a1.drop_last()) + a1.last());
    }
}

/// Line-shaped lines are determined by their text.
proof fn lemma_shape_unique(a: Seq<Seq<u8>>, b: Seq<Seq<u8>>)
    requires
        line_shape(a),
        line_shape(b),
        flatten(a) == flatten(b),
    ensures
        a == b,
    decreases a.len(),
{
    let t = flatten(a);
    let pa = flatten(a.drop_last());
    let pb = flatten(b.drop_last());
    lemma_shape_prefix(a);
    lemma_shape_prefix(b);
    lemma_tail_len(pa, a.last());
    lemma_tail_len(pb, b.last());
    assert(pa.len() == pb.len());
    assert(a.last() =~= t.subrange(pa.len() as int, t.len() as int));
    assert(b.last() =~= t.subrange(pb.len() as int, t.len() as int));
    assert(pa =~= t.subrange(0, pa.len() as int));
    assert(pb =~= t.subrange(0, pb.len() as int));
    if a.len() == 1 {
        assert(b.len() == 1);
        assert(a =~= b);
    } else {
        assert(b.len() > 1);
        let a1 = a.drop_last();
        let b1 = b.drop_last();
        let a2 = a1.drop_last().push(a1.last().drop_last());
        let b2 = b1.drop_last().push(b1.last().drop_last());
        assert(a1.last() == a[a.len() - 2]);
        assert(b1.last() == b[b.len() - 2]);
        assert(line_shape(a2)) by {
            assert forall|i: int| 0 <= i < a2.len() - 1 implies (#[trigger] a2[i]).len() >= 1 && a2[i].last() == 10u8
                && forall|k: int| 0 <= k < a2[i].len() - 1 ==> a2[i][k] != 10u8 by {
                assert(a2[i] == a[i]);
            }
            assert forall|k: int| 0 <= k < a2.last().len() implies a2.last()[k] != 10u8 by {
                assert(a2.last()[k] == a[a.len() - 2][k]);
            }
        }
        assert(line_shape(b2)) by {
            assert forall|i: int| 0 <= i < b2.len() - 1 implies (#[trigger] b2[i]).len() >= 1 && b2[i].last() == 10u8
                && forall|k: int| 0 <= k < b2[i].len() - 1 ==> b2[i][k] != 10u8 by {
                assert(b2[i] == b[i]);
            }
            assert forall|k: int| 0 <= k < b2.last().len() implies b2.last()[k] != 10u8 by {
                assert(b2.last()[k] == b[b.len() - 2][k]);
            }
        }
        assert(a2.drop_last() =~= a1.drop_last());
        assert(b2.drop_last() =~= b1.drop_last());
        assert(flatten(a1) == flatten(a1.drop_last()) + a1.last());
        assert(flatten(b1) == flatten(b1.drop_last()) + b1.last());
        assert(flatten(a2) =~= pa.drop_last());
        assert(flatten(b2) =~= pb.drop_last());
        lemma_shape_unique(a2, b2);
        assert(a1.last() =~= a2.last().push(10u8));
        assert(b1.last() =~= b2.last().push(10u8));
        assert(a1 =~= a2.drop_last().push(a1.last()));
        assert(b1 =~= b2.drop_last().push(b1.last()));
        assert(a =~= a1.push(a.last()));
        assert(b =~= b1.push(b.last()));
    }
}

/// The text `s` split after each newline: the pieces in order, each but
/// the last ending with its only newline, the last holding none.
pub open spec fn split_lines(s: Seq<u8>) -> Seq<Seq<u8>> {
    choose|ls: Seq<Seq<u8>>| line_shape(ls) && flatten(ls) == s
}

/// A text buffer holds its text split after each newline: after a write,
/// its lines are the last `max` pieces of what it held followed by the
/// bytes written, split after each newline.
pub proof fn lemma_write_splits_text(ls: Seq<Seq<u8>>, bytes: Seq<u8>, max: int)
    requires
        line_shape(ls),
        max >= 1,
    ensures
        line_shape(split_lines(flatten(ls) + bytes)),
        flatten(split_lines(flatten(ls) + bytes)) == flatten(ls) + bytes,
        keep_last(append_bytes(ls, bytes), max) == keep_last(split_lines(flatten(ls) + bytes), max),
{
    let x = append_bytes(ls, bytes);
    lemma_append_shape(ls, bytes);
    lemma_append_keeps_bytes(ls, bytes);
    assert(line_shape(x) && flatten(x) == flatten(ls) + bytes);
    let y = split_lines(flatten(ls) + bytes);
    lemma_shape_unique(x, y);
}

/// One pixel of a glyph as a font file describes it: whether it is set,
/// and its column and row in the glyph.
#[derive(Debug, Copy, Clone, PartialEq, Eq, Structural)]
pub struct GlyphPixel {
    pub bit: u8,
    pub x: u8,
    pub y: u8,
}

/// The glyph bytes after pixel `p` of the glyph at `glyph_offset` was
/// placed: a set pixel sets its bit, most significant first, in row `y` of
/// `bpr` bytes; a pixel past the end is dropped.
pub open spec fn place_pixel(g: Seq<u8>, glyph_offset: int, bpr: int, p: GlyphPixel) -> Seq<u8> {
    let off = glyph_offset + p.y * bpr + p.x / 8;
    if p.bit != 0 && off < g.len() {
        g.update(off, g[off] | (1u8 << ((7 - p.x % 8) as u8)))
    } else {
        g
    }
}

/// A set pixel of a font file's glyph shows where the file puts it: once
/// placed in row `y` of a glyph eight pixels wide (one byte per row), the
/// row drawn shows column `x` set and every other column as before; a
/// clear pixel changes nothing.
pub proof fn lemma_placed_pixel_is_drawn(g: Seq<u8>, glyph_offset: int, p: GlyphPixel, c: int)
    requires
        p.x < 8,
        0 <= glyph_offset,
        glyph_offset + p.y < g.len(),
        0 <= c < 8,
    ensures
        p.bit != 0 ==> glyph_bit(place_pixel(g, glyph_offset, 1, p)[glyph_offset + p.y], c)
            == (glyph_bit(g[glyph_offset + p.y], c) || c == p.x),
        p.bit == 0 ==> place_pixel(g, glyph_offset, 1, p) == g,
{
    let off = glyph_offset + p.y * 1 + p.x / 8;
    assert(p.x / 8 == 0);
    assert(off == glyph_offset + p.y);
    if p.bit != 0 {
        let b = g[off];
        let x = p.x;
        let cc = c as u8;
        assert((x % 8) == x);
        assert(((b | (1u8 << ((7 - x % 8) as u8))) >> ((7 - cc) as u8)) & 1u8 == 1u8
            <==> (((b >> ((7 - cc) as u8)) & 1u8 == 1u8) || cc == x)) by (bit_vector)
            requires x < 8, cc < 8;
        assert(place_pixel(g, glyph_offset, 1, p)[off] == b | (1u8 << ((7 - x % 8) as u8)));
    }
}

/// The glyph bytes after the pixels `ps` of one glyph were placed.
pub open spec fn place_pixels(g: Seq<u8>, glyph_offset: int, bpr: int, ps: Seq<GlyphPixel>) -> Seq<u8>
    decreases ps.len(),
{
    if ps.len() == 0 {
        g
    } else {
        place_pixel(place_pixels(g, glyph_offset, bpr, ps.drop_last()), glyph_offset, bpr, ps.last())
    }
}

/// The glyph bytes after the pixels of every glyph were placed, glyph `i`
/// starting at byte `i * height * bpr`.
pub open spec fn place_glyphs(g: Seq<u8>, height: int, bpr: int, gs: Seq<Seq<GlyphPixel>>) -> Seq<u8>
    decreases gs.len(),
{
    if gs.len() == 0 {
        g
    } else {
        place_pixels(
            place_glyphs(g, height, bpr, gs.drop_last()),
            (gs.len() - 1) * height * bpr,
            bpr,
            gs.last(),
        )
    }
}

impl ConsoleFont {
    /// A font of `width` x `height` glyphs built from the pixels a font
    /// file gives for each glyph (`glyphs[i]` for glyph `i`, in the order
    /// the file lists them): each glyph takes `height` rows of
    /// `ceil(width / 8)` bytes, zero but for the set pixels.
    pub fn from_glyph_pixels(width: usize, height: usize, glyphs: &Vec<Vec<GlyphPixel>>) -> (f: ConsoleFont)
        requires
            glyphs@.len() * height <= usize::MAX,
            glyphs@.len() * height * ((width + 7) / 8) < usize::MAX,
            width + 7 <= usize::MAX,
        ensures
            f.width == width,
            f.height == height,
            f.glyphs@ == place_glyphs(
                Seq::new((glyphs@.len() * height * ((width + 7) / 8)) as nat, |i: int| 0u8),
                height as int,
                (width + 7) / 8,
                Seq::new(glyphs@.len(), |i: int| glyphs@[i]@),
            ),
    {
        let bpr = (width + 7) / 8;
        let count = glyphs.len();
        proof {
            assert(count * height * bpr >= 0 && count * height >= 0) by (nonlinear_arith)
                requires count >= 0, height >= 0, bpr >= 0;
        }
        let total = count * height * bpr;
        let mut bytes: Vec<u8> = Vec::new();
        let mut z: usize = 0;
        while z < total
            invariant
                z <= total,
                bytes@ == Seq::new(z as nat, |i: int| 0u8),
            decreases total - z,
        {
            bytes.push(0);
            z += 1;
            assert(bytes@ =~= Seq::new(z as nat, |i: int| 0u8));
        }
        let ghost zero = bytes@;
        let ghost gs = Seq::new(glyphs@.len(), |i: int| glyphs@[i]@);
        let mut gi: usize = 0;
        while gi < count
            invariant
                gi <= count,
                count == glyphs@.len(),
                bpr == (width + 7) / 8,
                total == count * height * bpr,
                total < usize::MAX,
                count * height <= usize::MAX,
                bytes@.len() == total,
                gs == Seq::new(glyphs@.len(), |i: int| glyphs@[i]@),
                bytes@ == place_glyphs(zero, height as int, bpr as int, gs.take(gi as int)),
            decreases count - gi,
        {
            proof {
                assert(gi * height * bpr <= count * height * bpr && gi * height <= count * height) by (nonlinear_arith)
                    requires gi < count, height >= 0, bpr >= 0;
                assert(gs.take(gi + 1).drop_last() =~= gs.take(gi as int));
            }
            let glyph_offset = gi * height * bpr;
            let ps = &glyphs[gi];
            let ghost g0 = bytes@;
            let mut k: usize = 0;
            while k < ps.len()
                invariant
                    k <= ps@.len(),
                    bytes@.len() == total,
                    total < usize::MAX,
                    glyph_offset == gi * height * bpr,
                    glyph_offset <= total,
                    bytes@ == place_pixels(g0, glyph_offset as int, bpr as int, ps@.take(k as int)),
                decreases ps.len() - k,
            {
                proof {
                    assert(ps@.take(k + 1).drop_last() =~= ps@.take(k as int));
                }
                let p = ps[k];
                if p.bit != 0 {
                    let row_off = clamp_mul(p.y as usize, bpr);
                    let off = clamp_add(clamp_add(glyph_offset, row_off), (p.x / 8) as usize);
                    proof {
                        assert(p.y * bpr >= 0) by (nonlinear_arith) requires p.y >= 0, bpr >= 0;
                        lemma_clamp_add(glyph_offset as int, p.y * bpr);
                        lemma_clamp_add(glyph_offset + p.y * bpr, (p.x / 8) as int);
                    }
                    if off < bytes.len() {
                        let shift: u8 = 7 - (p.x % 8);
                        let old_b = bytes[off];
                        bytes.set(off, old_b | (1u8 << shift));
                    }
                }
                k += 1;
            }
            assert(ps@.take(ps@.len() as int) =~= ps@);
            assert(gs.take(gi + 1).last() == ps@);
            gi += 1;
        }
        assert(gs.take(count as int) =~= gs);
        ConsoleFont { glyphs: bytes, width, height }
    }
}

} // verus!
