//! Cell-tier sprite rasterizers, for terminals without a graphics protocol:
//! which cells a sprite paints and with what glyph and colours.
//!
//! Half-block (24-bit, 256 and 16 colours): one cell packs two vertical
//! pixels, `▀` with the top pixel as foreground and the bottom one as
//! background. Braille: one cell is a 2×4 dot grid (`U+2800` plus the dot
//! bits) in the mean colour of its lit pixels. Transparent pixels (alpha
//! below 128) never paint, and cells outside the destination are skipped.

use vstd::prelude::*;

use crate::chrome::CellRect;
use crate::text::char_from_u32;

verus! {

/// Alpha at or above this is opaque (painted); below is transparent.
pub const CELL_ALPHA_THRESHOLD: u8 = 128;

/// One painted cell: glyph, foreground and, when both half-block pixels are
/// opaque, background. Cells not listed are left as they were.
#[derive(Debug, Clone, Copy, PartialEq, Eq)]
pub struct CellPaint {
    pub x: u16,
    pub y: u16,
    pub symbol: char,
    pub fg: (u8, u8, u8),
    pub bg: Option<(u8, u8, u8)>,
}

/// The colour of sprite pixel `(x, y)` when it is inside the sprite, its
/// bytes are present and it is opaque.
#[verifier::opaque]
pub open spec fn pixel(rgba: Seq<u8>, w: u32, h: u32, x: int, y: int) -> Option<(u8, u8, u8)> {
    if x < 0 || y < 0 || x >= w || y >= h {
        None
    } else {
        let i = (y * w + x) * 4;
        if i + 3 >= rgba.len() || rgba[i + 3] < CELL_ALPHA_THRESHOLD {
            None
        } else {
            Some((rgba[i], rgba[i + 1], rgba[i + 2]))
        }
    }
}

/// The destination cell `(x, y)` lies in `area` (its right and bottom edges
/// saturate at 65535).
pub open spec fn in_area(area: CellRect, x: int, y: int) -> bool {
    let right = if area.x + area.width > 65535 { 65535 } else { area.x + area.width };
    let bottom = if area.y + area.height > 65535 { 65535 } else { area.y + area.height };
    area.x <= x < right && area.y <= y < bottom
}

/// A sprite whose pixel byte offsets fit in `u32`.
pub open spec fn sprite_fits(w: u32, h: u32) -> bool {
    w * h * 4 <= u32::MAX
}

/// Row-major order of painted cells.
pub open spec fn before(a: CellPaint, b: CellPaint) -> bool {
    a.y < b.y || (a.y == b.y && a.x < b.x)
}

/// `n / d` rounded up.
pub open spec fn div_up(n: u32, d: u32) -> int {
    n / d + if n % d == 0 { 0int } else { 1int }
}

/// What half-block cell `(cx, cy)` of the sprite paints at `(ox + cx, oy + cy)`.
pub open spec fn halfblock_at(rgba: Seq<u8>, w: u32, h: u32, ox: u16, oy: u16, area: CellRect, cx: int, cy: int) -> Option<CellPaint> {
    let dx = ox + cx;
    let dy = oy + cy;
    if dx > 65535 || dy > 65535 || !in_area(area, dx, dy) {
        None
    } else {
        match (pixel(rgba, w, h, cx, 2 * cy), pixel(rgba, w, h, cx, 2 * cy + 1)) {
            (Some(t), Some(b)) => Some(CellPaint { x: dx as u16, y: dy as u16, symbol: '▀', fg: t, bg: Some(b) }),
            (Some(t), None) => Some(CellPaint { x: dx as u16, y: dy as u16, symbol: '▀', fg: t, bg: None }),
            (None, Some(b)) => Some(CellPaint { x: dx as u16, y: dy as u16, symbol: '▄', fg: b, bg: None }),
            (None, None) => None,
        }
    }
}

/// Sprite pixels are stored row by row, four bytes each (red, green, blue,
/// alpha): pixel `(x, y)` inside the sprite is bytes `4·(y·w + x)` on, and
/// it is drawn exactly when those bytes are present and its alpha is at
/// least 128.
pub proof fn lemma_pixel_bytes(rgba: Seq<u8>, w: u32, h: u32, x: int, y: int)
    requires
        0 <= x < w,
        0 <= y < h,
    ensures
        ({
            let i = 4 * (y * w + x);
            &&& pixel(rgba, w, h, x, y) is Some <==> (i + 3 < rgba.len() && rgba[i + 3] >= 128)
            &&& pixel(rgba, w, h, x, y) is Some ==> pixel(rgba, w, h, x, y) == Some((rgba[i], rgba[i + 1], rgba[i + 2]))
        }),
{
    reveal(pixel);
    assert((y * w + x) * 4 == 4 * (y * w + x));
}

/// A pixel outside the sprite is never drawn.
pub proof fn lemma_pixel_outside(rgba: Seq<u8>, w: u32, h: u32, x: int, y: int)
    requires
        x < 0 || y < 0 || x >= w || y >= h,
    ensures
        pixel(rgba, w, h, x, y) is None,
{
    reveal(pixel);
}

/// A half-block cell shows sprite rows `2·cy` (upper half) and `2·cy + 1`
/// (lower half) of column `cx`: with the upper pixel drawn it is `▀` in the
/// upper pixel's colour over the lower pixel's colour (or the terminal's
/// background when the lower one is not drawn); with only the lower pixel
/// drawn it is `▄` in that colour; with neither it paints nothing.
pub proof fn lemma_halfblock_halves(rgba: Seq<u8>, w: u32, h: u32, ox: u16, oy: u16, area: CellRect, cx: int, cy: int)
    requires
        ox + cx <= 65535,
        oy + cy <= 65535,
        in_area(area, ox + cx, oy + cy),
    ensures
        ({
            let up = pixel(rgba, w, h, cx, 2 * cy);
            let low = pixel(rgba, w, h, cx, 2 * cy + 1);
            let c = halfblock_at(rgba, w, h, ox, oy, area, cx, cy);
            &&& (up is None && low is None) <==> c is None
            &&& c matches Some(p) ==> p.x == ox + cx && p.y == oy + cy
            &&& up matches Some(t) ==> c matches Some(p) && p.symbol == '\u{2580}' && p.fg == t && p.bg == low
            &&& up is None ==> (low matches Some(b) ==> c matches Some(p) && p.symbol == '\u{2584}' && p.fg == b
                && p.bg is None)
        }),
{
}

/// The painted cells, in row-major order, are exactly the cells `at` paints
/// for the sprite cells `cols × rows`.
pub open spec fn paints_exactly(
    out: Seq<CellPaint>,
    ox: u16,
    oy: u16,
    cols: int,
    rows: int,
    at: spec_fn(int, int) -> Option<CellPaint>,
) -> bool {
    &&& forall|k: int|
        0 <= k < out.len() ==> {
            let cx = out[k].x - ox;
            let cy = out[k].y - oy;
            &&& 0 <= cx < cols
            &&& 0 <= cy < rows
            &&& at(cx, cy) == Some(#[trigger] out[k])
        }
    &&& forall|cx: int, cy: int| 0 <= cx < cols && 0 <= cy < rows && #[trigger] at(cx, cy) is Some ==> out.contains(at(cx, cy)->0)
    &&& forall|k1: int, k2: int| 0 <= k1 < k2 < out.len() ==> before(#[trigger] out[k1], #[trigger] out[k2])
}

/// Sprite pixel `(x, y)`.
fn sample(rgba: &[u8], w: u32, h: u32, x: u32, y: u32) -> (r: Option<(u8, u8, u8)>)
    requires
        sprite_fits(w, h),
    ensures
        r == pixel(rgba@, w, h, x as int, y as int),
{
    proof {
        reveal(pixel);
    }
    if x >= w || y >= h {
        return None;
    }
    proof {
        assert(y * w + x < w * h) by (nonlinear_arith)
            requires
                x < w,
                y < h,
        ;
    }
    let i = ((y * w + x) * 4) as usize;
    if i + 3 >= rgba.len() || rgba[i + 3] < CELL_ALPHA_THRESHOLD {
        return None;
    }
    Some((rgba[i], rgba[i + 1], rgba[i + 2]))
}

/// Whether destination cell `(x, y)` lies in `area`.
fn cell_in_area(area: CellRect, x: u16, y: u16) -> (r: bool)
    ensures
        r == in_area(area, x as int, y as int),
{
    let right: u16 = area.x.saturating_add(area.width);
    let bottom: u16 = area.y.saturating_add(area.height);
    x >= area.x && x < right && y >= area.y && y < bottom
}

/// The cells a sprite paints with half blocks, the sprite's top-left at cell
/// `(ox, oy)`: `w` columns by `⌈h/2⌉` rows, clipped to `area`.
pub fn halfblock_cells(rgba: &[u8], w: u32, h: u32, ox: u16, oy: u16, area: CellRect) -> (out: Vec<CellPaint>)
    requires
        sprite_fits(w, h),
    ensures
        paints_exactly(
            out@,
            ox,
            oy,
            w as int,
            div_up(h, 2),
            |cx: int, cy: int| halfblock_at(rgba@, w, h, ox, oy, area, cx, cy),
        ),
{
    let ghost at = |cx: int, cy: int| halfblock_at(rgba@, w, h, ox, oy, area, cx, cy);
    let rows: u32 = h / 2 + if h % 2 == 0 { 0 } else { 1 };
    let mut out: Vec<CellPaint> = Vec::new();
    let mut cy: u32 = 0;
    while cy < rows
        invariant
            sprite_fits(w, h),
            rows == div_up(h, 2),
            cy <= rows,
            at == (|cx: int, cy: int| halfblock_at(rgba@, w, h, ox, oy, area, cx, cy)),
            paints_exactly(out@, ox, oy, w as int, cy as int, at),
        decreases rows - cy,
    {
        let ghost row_start = out@;
        let mut cx: u32 = 0;
        while cx < w
            invariant
                sprite_fits(w, h),
                rows == div_up(h, 2),
                cy < rows,
                cx <= w,
                at == (|cx: int, cy: int| halfblock_at(rgba@, w, h, ox, oy, area, cx, cy)),
                paints_exactly(row_start, ox, oy, w as int, cy as int, at),
                out@.len() >= row_start.len(),
                out@.subrange(0, row_start.len() as int) == row_start,
                forall|k: int|
                    row_start.len() <= k < out@.len() ==> {
                        let c = out@[k].x - ox;
                        &&& 0 <= c < cx
                        &&& out@[k].y == oy + cy
                        &&& at(c, cy as int) == Some(#[trigger] out@[k])
                    },
                forall|c: int| 0 <= c < cx && #[trigger] at(c, cy as int) is Some ==> out@.contains(at(c, cy as int)->0),
                forall|k1: int, k2: int| 0 <= k1 < k2 < out@.len() ==> before(#[trigger] out@[k1], #[trigger] out@[k2]),
            decreases w - cx,
        {
            proof {
                assert(w <= 0x4000_0000 && h <= 0x4000_0000) by (nonlinear_arith)
                    requires
                        w * h * 4 <= u32::MAX,
                        cx < w,
                        cy < h / 2 + if h % 2 == 0 { 0int } else { 1int },
                ;
            }
            let dx = ox as u32 + cx;
            let dy = oy as u32 + cy;
            if dx <= 65535 && dy <= 65535 && cell_in_area(area, dx as u16, dy as u16) {
                proof {
                    assert(2 * cy + 1 <= h) by (nonlinear_arith)
                        requires
                            cy < h / 2 + if h % 2 == 0 { 0int } else { 1int },
                    ;
                }
                let top = sample(rgba, w, h, cx, cy * 2);
                let bot = sample(rgba, w, h, cx, cy * 2 + 1);
                let paint = match (top, bot) {
                    (Some(t), Some(b)) => Some(CellPaint { x: dx as u16, y: dy as u16, symbol: '▀', fg: t, bg: Some(b) }),
                    (Some(t), None) => Some(CellPaint { x: dx as u16, y: dy as u16, symbol: '▀', fg: t, bg: None }),
                    (None, Some(b)) => Some(CellPaint { x: dx as u16, y: dy as u16, symbol: '▄', fg: b, bg: None }),
                    (None, None) => None,
                };
                assert(paint == at(cx as int, cy as int));
                match paint {
                    Some(p) => {
                        let ghost old_out = out@;
                        out.push(p);
                        proof {
                            assert(out@[old_out.len() as int] == p);
                            assert forall|c: int| 0 <= c < cx + 1 && #[trigger] at(c, cy as int) is Some implies out@.contains(at(c, cy as int)->0) by {
                                if c < cx {
                                    let k = choose|k: int| 0 <= k < old_out.len() && old_out[k] == at(c, cy as int)->0;
                                    assert(out@[k] == old_out[k]);
                                }
                            }
                            assert forall|k1: int, k2: int| 0 <= k1 < k2 < out@.len() implies before(#[trigger] out@[k1], #[trigger] out@[k2]) by {
                                if k2 < old_out.len() {
                                    assert(out@[k1] == old_out[k1] && out@[k2] == old_out[k2]);
                                } else if k1 >= row_start.len() {
                                    assert(out@[k1] == old_out[k1]);
                                } else {
                                    assert(out@[k1] == row_start[k1]);
                                }
                            }
                            assert(out@.subrange(0, row_start.len() as int) =~= row_start);
                        }
                    },
                    None => {},
                }
            } else {
                assert(at(cx as int, cy as int) is None);
            }
            cx = cx + 1;
        }
        proof {
            assert forall|k: int| 0 <= k < out@.len() implies {
                let c = out@[k].x - ox;
                let r = out@[k].y - oy;
                &&& 0 <= c < w
                &&& 0 <= r < cy + 1
                &&& at(c, r) == Some(#[trigger] out@[k])
            } by {
                if k < row_start.len() {
                    assert(out@[k] == row_start[k]);
                }
            }
            assert forall|c: int, r: int| 0 <= c < w && 0 <= r < cy + 1 && #[trigger] at(c, r) is Some implies out@.contains(at(c, r)->0) by {
                if r < cy {
                    let k = choose|k: int| 0 <= k < row_start.len() && row_start[k] == at(c, r)->0;
                    assert(out@[k] == row_start[k]);
                }
            }
        }
        cy = cy + 1;
    }
    out
}

/// `v` when pixel `p` is lit, else 0.
pub open spec fn lit_value(p: Option<(u8, u8, u8)>, v: int) -> int {
    if p is Some { v } else { 0 }
}

/// Channel `c` of pixel `p` when lit, else 0.
pub open spec fn channel(p: Option<(u8, u8, u8)>, c: int) -> int {
    match p {
        Some(rgb) => if c == 0 { rgb.0 as int } else if c == 1 { rgb.1 as int } else { rgb.2 as int },
        None => 0,
    }
}

/// Pixel `(sx, sy)` of braille cell `(cx, cy)`.
pub open spec fn dot(rgba: Seq<u8>, w: u32, h: u32, cx: int, cy: int, sx: int, sy: int) -> Option<(u8, u8, u8)> {
    pixel(rgba, w, h, 2 * cx + sx, 4 * cy + sy)
}

/// The dot bits of braille cell `(cx, cy)`: the left column's dots are bits
/// 0, 1, 2 and 6 from the top, the right column's bits 3, 4, 5 and 7.
pub open spec fn braille_bits(rgba: Seq<u8>, w: u32, h: u32, cx: int, cy: int) -> int {
    lit_value(dot(rgba, w, h, cx, cy, 0, 0), 1) + lit_value(dot(rgba, w, h, cx, cy, 0, 1), 2) + lit_value(
        dot(rgba, w, h, cx, cy, 0, 2),
        4,
    ) + lit_value(dot(rgba, w, h, cx, cy, 0, 3), 64) + lit_value(dot(rgba, w, h, cx, cy, 1, 0), 8) + lit_value(
        dot(rgba, w, h, cx, cy, 1, 1),
        16,
    ) + lit_value(dot(rgba, w, h, cx, cy, 1, 2), 32) + lit_value(dot(rgba, w, h, cx, cy, 1, 3), 128)
}

/// The Unicode braille dot (1–8) that pixel `(sx, sy)` of a 2×4 cell
/// raises: dots 1, 2, 3, 7 down the left column, 4, 5, 6, 8 down the right.
pub open spec fn unicode_braille_dot(sx: int, sy: int) -> u32 {
    if sx == 0 {
        if sy == 0 { 1 } else if sy == 1 { 2 } else if sy == 2 { 3 } else { 7 }
    } else {
        if sy == 0 { 4 } else if sy == 1 { 5 } else if sy == 2 { 6 } else { 8 }
    }
}

/// The pattern of eight dots given in the order of `braille_bits`'s terms.
spec fn dot_pattern(b0: bool, b1: bool, b2: bool, b3: bool, b4: bool, b5: bool, b6: bool, b7: bool) -> u32 {
    ((if b0 { 1u32 } else { 0u32 }) + (if b1 { 2u32 } else { 0u32 }) + (if b2 { 4u32 } else { 0u32 }) + (if b3 { 64u32 } else { 0u32 })
        + (if b4 { 8u32 } else { 0u32 }) + (if b5 { 16u32 } else { 0u32 }) + (if b6 { 32u32 } else { 0u32 }) + (if b7 {
        128u32
    } else {
        0u32
    })) as u32
}

proof fn lemma_dot_pattern(b0: bool, b1: bool, b2: bool, b3: bool, b4: bool, b5: bool, b6: bool, b7: bool)
    ensures
        ({
            let n: u32 = dot_pattern(b0, b1, b2, b3, b4, b5, b6, b7);
            &&& n < 256
            &&& ((n >> 0u32) & 1u32 == 1u32) == b0
            &&& ((n >> 1u32) & 1u32 == 1u32) == b1
            &&& ((n >> 2u32) & 1u32 == 1u32) == b2
            &&& ((n >> 6u32) & 1u32 == 1u32) == b3
            &&& ((n >> 3u32) & 1u32 == 1u32) == b4
            &&& ((n >> 4u32) & 1u32 == 1u32) == b5
            &&& ((n >> 5u32) & 1u32 == 1u32) == b6
            &&& ((n >> 7u32) & 1u32 == 1u32) == b7
        }),
{
    assert({
        let n: u32 = dot_pattern(b0, b1, b2, b3, b4, b5, b6, b7);
        &&& n < 256
        &&& ((n >> 0u32) & 1u32 == 1u32) == b0
        &&& ((n >> 1u32) & 1u32 == 1u32) == b1
        &&& ((n >> 2u32) & 1u32 == 1u32) == b2
        &&& ((n >> 6u32) & 1u32 == 1u32) == b3
        &&& ((n >> 3u32) & 1u32 == 1u32) == b4
        &&& ((n >> 4u32) & 1u32 == 1u32) == b5
        &&& ((n >> 5u32) & 1u32 == 1u32) == b6
        &&& ((n >> 7u32) & 1u32 == 1u32) == b7
    }) by (bit_vector);
}

/// Braille cells follow Unicode: the pattern of cell `(cx, cy)` is below
/// 256, and its bit `d − 1` is set exactly when the pixel raising dot `d`
/// (see [`unicode_braille_dot`]) is lit. So a cell whose one lit pixel is
/// `(0, 2)` shows U+2804 and one whose one lit pixel is `(1, 1)` U+2810.
pub proof fn lemma_braille_bits_unicode(rgba: Seq<u8>, w: u32, h: u32, cx: int, cy: int, sx: int, sy: int)
    requires
        0 <= sx < 2,
        0 <= sy < 4,
    ensures
        0 <= braille_bits(rgba, w, h, cx, cy) < 256,
        ((braille_bits(rgba, w, h, cx, cy) as u32 >> ((unicode_braille_dot(sx, sy) - 1) as u32)) & 1u32 == 1u32) <==> dot(
            rgba,
            w,
            h,
            cx,
            cy,
            sx,
            sy,
        ) is Some,
{
    let b0 = dot(rgba, w, h, cx, cy, 0, 0) is Some;
    let b1 = dot(rgba, w, h, cx, cy, 0, 1) is Some;
    let b2 = dot(rgba, w, h, cx, cy, 0, 2) is Some;
    let b3 = dot(rgba, w, h, cx, cy, 0, 3) is Some;
    let b4 = dot(rgba, w, h, cx, cy, 1, 0) is Some;
    let b5 = dot(rgba, w, h, cx, cy, 1, 1) is Some;
    let b6 = dot(rgba, w, h, cx, cy, 1, 2) is Some;
    let b7 = dot(rgba, w, h, cx, cy, 1, 3) is Some;
    lemma_dot_pattern(b0, b1, b2, b3, b4, b5, b6, b7);
    let n: u32 = dot_pattern(b0, b1, b2, b3, b4, b5, b6, b7);
    assert(braille_bits(rgba, w, h, cx, cy) == n as int);
}

/// A cell with a single lit pixel `(sx, sy)` shows that pixel's Unicode dot
/// alone: its pattern is `2^(d − 1)` for dot `d`.
pub proof fn lemma_braille_single_dot(rgba: Seq<u8>, w: u32, h: u32, cx: int, cy: int, sx: int, sy: int)
    requires
        0 <= sx < 2,
        0 <= sy < 4,
        dot(rgba, w, h, cx, cy, sx, sy) is Some,
        forall|a: int, b: int|
            0 <= a < 2 && 0 <= b < 4 && !(a == sx && b == sy) ==> #[trigger] dot(rgba, w, h, cx, cy, a, b) is None,
    ensures
        braille_bits(rgba, w, h, cx, cy) == vstd::arithmetic::power2::pow2((unicode_braille_dot(sx, sy) - 1) as nat),
{
    vstd::arithmetic::power2::lemma2_to64();
    assert(dot(rgba, w, h, cx, cy, 0, 0) is Some ==> sx == 0 && sy == 0);
    assert(dot(rgba, w, h, cx, cy, 0, 1) is Some ==> sx == 0 && sy == 1);
    assert(dot(rgba, w, h, cx, cy, 0, 2) is Some ==> sx == 0 && sy == 2);
    assert(dot(rgba, w, h, cx, cy, 0, 3) is Some ==> sx == 0 && sy == 3);
    assert(dot(rgba, w, h, cx, cy, 1, 0) is Some ==> sx == 1 && sy == 0);
    assert(dot(rgba, w, h, cx, cy, 1, 1) is Some ==> sx == 1 && sy == 1);
    assert(dot(rgba, w, h, cx, cy, 1, 2) is Some ==> sx == 1 && sy == 2);
    assert(dot(rgba, w, h, cx, cy, 1, 3) is Some ==> sx == 1 && sy == 3);
}

/// The sum of channel `c` over the lit pixels of braille cell `(cx, cy)`.
pub open spec fn braille_sum(rgba: Seq<u8>, w: u32, h: u32, cx: int, cy: int, c: int) -> int {
    channel(dot(rgba, w, h, cx, cy, 0, 0), c) + channel(dot(rgba, w, h, cx, cy, 0, 1), c) + channel(
        dot(rgba, w, h, cx, cy, 0, 2),
        c,
    ) + channel(dot(rgba, w, h, cx, cy, 0, 3), c) + channel(dot(rgba, w, h, cx, cy, 1, 0), c) + channel(
        dot(rgba, w, h, cx, cy, 1, 1),
        c,
    ) + channel(dot(rgba, w, h, cx, cy, 1, 2), c) + channel(dot(rgba, w, h, cx, cy, 1, 3), c)
}

/// How many pixels of braille cell `(cx, cy)` are lit.
pub open spec fn braille_count(rgba: Seq<u8>, w: u32, h: u32, cx: int, cy: int) -> int {
    lit_value(dot(rgba, w, h, cx, cy, 0, 0), 1) + lit_value(dot(rgba, w, h, cx, cy, 0, 1), 1) + lit_value(
        dot(rgba, w, h, cx, cy, 0, 2),
        1,
    ) + lit_value(dot(rgba, w, h, cx, cy, 0, 3), 1) + lit_value(dot(rgba, w, h, cx, cy, 1, 0), 1) + lit_value(
        dot(rgba, w, h, cx, cy, 1, 1),
        1,
    ) + lit_value(dot(rgba, w, h, cx, cy, 1, 2), 1) + lit_value(dot(rgba, w, h, cx, cy, 1, 3), 1)
}

/// What braille cell `(cx, cy)` of the sprite paints at `(ox + cx, oy + cy)`:
/// the dot pattern of its lit pixels in their mean colour, nothing when none
/// is lit.
pub open spec fn braille_at(rgba: Seq<u8>, w: u32, h: u32, ox: u16, oy: u16, area: CellRect, cx: int, cy: int) -> Option<CellPaint> {
    let dx = ox + cx;
    let dy = oy + cy;
    let n = braille_count(rgba, w, h, cx, cy);
    if dx > 65535 || dy > 65535 || !in_area(area, dx, dy) || braille_bits(rgba, w, h, cx, cy) == 0 {
        None
    } else {
        Some(
            CellPaint {
                x: dx as u16,
                y: dy as u16,
                symbol: (0x2800 + braille_bits(rgba, w, h, cx, cy)) as char,
                fg: (
                    (braille_sum(rgba, w, h, cx, cy, 0) / n) as u8,
                    (braille_sum(rgba, w, h, cx, cy, 1) / n) as u8,
                    (braille_sum(rgba, w, h, cx, cy, 2) / n) as u8,
                ),
                bg: None,
            },
        )
    }
}

/// Add one braille pixel to the running bits, sums and count.
fn add_dot(acc: (u32, u32, u32, u32, u32), p: Option<(u8, u8, u8)>, bit: u32) -> (r: (u32, u32, u32, u32, u32))
    requires
        acc.0 + bit <= 255,
        acc.1 <= 7 * 255,
        acc.2 <= 7 * 255,
        acc.3 <= 7 * 255,
        acc.4 <= 7,
    ensures
        r.0 == acc.0 + lit_value(p, bit as int),
        r.1 == acc.1 + channel(p, 0),
        r.2 == acc.2 + channel(p, 1),
        r.3 == acc.3 + channel(p, 2),
        r.4 == acc.4 + lit_value(p, 1),
{
    match p {
        Some((r, g, b)) => (acc.0 + bit, acc.1 + r as u32, acc.2 + g as u32, acc.3 + b as u32, acc.4 + 1),
        None => acc,
    }
}

/// The dot bits, channel sums and lit count of braille cell `(cx, cy)`.
fn braille_dots(rgba: &[u8], w: u32, h: u32, cx: u32, cy: u32) -> (r: (u32, u32, u32, u32, u32))
    requires
        sprite_fits(w, h),
        cx < div_up(w, 2),
        cy < div_up(h, 4),
    ensures
        r.0 == braille_bits(rgba@, w, h, cx as int, cy as int),
        r.1 == braille_sum(rgba@, w, h, cx as int, cy as int, 0),
        r.2 == braille_sum(rgba@, w, h, cx as int, cy as int, 1),
        r.3 == braille_sum(rgba@, w, h, cx as int, cy as int, 2),
        r.4 == braille_count(rgba@, w, h, cx as int, cy as int),
{
    proof {
        assert(w <= 0x4000_0000 && h <= 0x4000_0000) by (nonlinear_arith)
            requires
                w * h * 4 <= u32::MAX,
                cx < w / 2 + if w % 2 == 0 { 0int } else { 1int },
                cy < h / 4 + if h % 4 == 0 { 0int } else { 1int },
        ;
    }
    let x0 = cx * 2;
    let y0 = cy * 4;
    let mut acc: (u32, u32, u32, u32, u32) = (0, 0, 0, 0, 0);
    acc = add_dot(acc, sample(rgba, w, h, x0, y0), 1);
    acc = add_dot(acc, sample(rgba, w, h, x0, y0 + 1), 2);
    acc = add_dot(acc, sample(rgba, w, h, x0, y0 + 2), 4);
    acc = add_dot(acc, sample(rgba, w, h, x0, y0 + 3), 64);
    acc = add_dot(acc, sample(rgba, w, h, x0 + 1, y0), 8);
    acc = add_dot(acc, sample(rgba, w, h, x0 + 1, y0 + 1), 16);
    acc = add_dot(acc, sample(rgba, w, h, x0 + 1, y0 + 2), 32);
    acc = add_dot(acc, sample(rgba, w, h, x0 + 1, y0 + 3), 128);
    acc
}

/// What braille cell `(cx, cy)` paints.
fn braille_paint(rgba: &[u8], w: u32, h: u32, ox: u16, oy: u16, area: CellRect, cx: u32, cy: u32) -> (r: Option<CellPaint>)
    requires
        sprite_fits(w, h),
        cx < div_up(w, 2),
        cy < div_up(h, 4),
    ensures
        r == braille_at(rgba@, w, h, ox, oy, area, cx as int, cy as int),
        r matches Some(p) ==> p.x == ox + cx && p.y == oy + cy,
{
    proof {
        assert(w <= 0x4000_0000 && h <= 0x4000_0000) by (nonlinear_arith)
            requires
                w * h * 4 <= u32::MAX,
                cx < w / 2 + if w % 2 == 0 { 0int } else { 1int },
                cy < h / 4 + if h % 4 == 0 { 0int } else { 1int },
        ;
    }
    let dx = ox as u32 + cx;
    let dy = oy as u32 + cy;
    if !(dx <= 65535 && dy <= 65535 && cell_in_area(area, dx as u16, dy as u16)) {
        return None;
    }
    let (bits, rs, gs, bs, n) = braille_dots(rgba, w, h, cx, cy);
    if bits == 0 {
        return None;
    }
    let code: u32 = 0x2800 + bits;
    let symbol = match char_from_u32(code) {
        Some(c) => c,
        None => ' ',
    };
    proof {
        vstd::utf8::char_u32_cast(symbol, code);
        assert(rs / n <= 255 && gs / n <= 255 && bs / n <= 255) by (nonlinear_arith)
            requires
                n > 0,
                rs <= n * 255,
                gs <= n * 255,
                bs <= n * 255,
        ;
    }
    Some(CellPaint { x: dx as u16, y: dy as u16, symbol, fg: ((rs / n) as u8, (gs / n) as u8, (bs / n) as u8), bg: None })
}

/// The cells a sprite paints in braille, the sprite's top-left at cell
/// `(ox, oy)`: `⌈w/2⌉` columns by `⌈h/4⌉` rows, clipped to `area`.
pub fn braille_cells(rgba: &[u8], w: u32, h: u32, ox: u16, oy: u16, area: CellRect) -> (out: Vec<CellPaint>)
    requires
        sprite_fits(w, h),
    ensures
        paints_exactly(
            out@,
            ox,
            oy,
            div_up(w, 2),
            div_up(h, 4),
            |cx: int, cy: int| braille_at(rgba@, w, h, ox, oy, area, cx, cy),
        ),
{
    let ghost at = |cx: int, cy: int| braille_at(rgba@, w, h, ox, oy, area, cx, cy);
    let cols: u32 = w / 2 + if w % 2 == 0 { 0 } else { 1 };
    let rows: u32 = h / 4 + if h % 4 == 0 { 0 } else { 1 };
    let mut out: Vec<CellPaint> = Vec::new();
    let mut cy: u32 = 0;
    while cy < rows
        invariant
            sprite_fits(w, h),
            cols == div_up(w, 2),
            rows == div_up(h, 4),
            cy <= rows,
            at == (|cx: int, cy: int| braille_at(rgba@, w, h, ox, oy, area, cx, cy)),
            paints_exactly(out@, ox, oy, cols as int, cy as int, at),
        decreases rows - cy,
    {
        let ghost row_start = out@;
        let mut cx: u32 = 0;
        while cx < cols
            invariant
                sprite_fits(w, h),
                cols == div_up(w, 2),
                rows == div_up(h, 4),
                cy < rows,
                cx <= cols,
                at == (|cx: int, cy: int| braille_at(rgba@, w, h, ox, oy, area, cx, cy)),
                paints_exactly(row_start, ox, oy, cols as int, cy as int, at),
                out@.len() >= row_start.len(),
                out@.subrange(0, row_start.len() as int) == row_start,
                forall|k: int|
                    row_start.len() <= k < out@.len() ==> {
                        let c = out@[k].x - ox;
                        &&& 0 <= c < cx
                        &&& out@[k].y == oy + cy
                        &&& at(c, cy as int) == Some(#[trigger] out@[k])
                    },
                forall|c: int| 0 <= c < cx && #[trigger] at(c, cy as int) is Some ==> out@.contains(at(c, cy as int)->0),
                forall|k1: int, k2: int| 0 <= k1 < k2 < out@.len() ==> before(#[trigger] out@[k1], #[trigger] out@[k2]),
            decreases cols - cx,
        {
            match braille_paint(rgba, w, h, ox, oy, area, cx, cy) {
                Some(p) => {
                    let ghost old_out = out@;
                    out.push(p);
                    proof {
                        assert(out@[old_out.len() as int] == p);
                        assert forall|c: int| 0 <= c < cx + 1 && #[trigger] at(c, cy as int) is Some implies out@.contains(at(c, cy as int)->0) by {
                            if c < cx {
                                let k = choose|k: int| 0 <= k < old_out.len() && old_out[k] == at(c, cy as int)->0;
                                assert(out@[k] == old_out[k]);
                            }
                        }
                        assert forall|k1: int, k2: int| 0 <= k1 < k2 < out@.len() implies before(#[trigger] out@[k1], #[trigger] out@[k2]) by {
                            if k2 < old_out.len() {
                                assert(out@[k1] == old_out[k1] && out@[k2] == old_out[k2]);
                            } else if k1 >= row_start.len() {
                                assert(out@[k1] == old_out[k1]);
                            } else {
                                assert(out@[k1] == row_start[k1]);
                            }
                        }
                        assert(out@.subrange(0, row_start.len() as int) =~= row_start);
                    }
                },
                None => {},
            }
            cx = cx + 1;
        }
        proof {
            assert forall|k: int| 0 <= k < out@.len() implies {
                let c = out@[k].x - ox;
                let r = out@[k].y - oy;
                &&& 0 <= c < cols
                &&& 0 <= r < cy + 1
                &&& at(c, r) == Some(#[trigger] out@[k])
            } by {
                if k < row_start.len() {
                    assert(out@[k] == row_start[k]);
                }
            }
            assert forall|c: int, r: int| 0 <= c < cols && 0 <= r < cy + 1 && #[trigger] at(c, r) is Some implies out@.contains(at(c, r)->0) by {
                if r < cy {
                    let k = choose|k: int| 0 <= k < row_start.len() && row_start[k] == at(c, r)->0;
                    assert(out@[k] == row_start[k]);
                }
            }
        }
        cy = cy + 1;
    }
    out
}

} // verus!
