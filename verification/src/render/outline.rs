//! White selection outline: a sprite's opaque silhouette ringed by a one
//! pixel white border, on a canvas two pixels larger in each dimension.

use vstd::prelude::*;

use crate::assets::DecodedAsset;

verus! {

/// Whether source pixel `(x, y)` exists and is opaque (alpha at least 128).
pub open spec fn opaque_at(px: Seq<u8>, w: int, h: int, x: int, y: int) -> bool {
    0 <= x < w && 0 <= y < h && px[(y * w + x) * 4 + 3] >= 128
}

/// Channel `c` of outline pixel `(ex, ey)`: transparent over the
/// silhouette (source pixel `(ex - 1, ey - 1)`), white next to it (a
/// cardinal neighbour is on the silhouette), transparent elsewhere.
pub open spec fn outline_value(px: Seq<u8>, w: int, h: int, ex: int, ey: int, c: int) -> u8 {
    if opaque_at(px, w, h, ex - 1, ey - 1) {
        0
    } else if opaque_at(px, w, h, ex - 1, ey - 2) || opaque_at(px, w, h, ex - 1, ey)
        || opaque_at(px, w, h, ex - 2, ey - 1) || opaque_at(px, w, h, ex, ey - 1) {
        255
    } else {
        0
    }
}

/// `a * w + b` names one cell of a grid `w` wide: equal indices mean equal
/// coordinates.
pub proof fn lemma_grid_index_unique(a: int, b: int, c: int, d: int, w: int)
    requires
        0 <= b < w,
        0 <= d < w,
        0 <= a,
        0 <= c,
        a * w + b == c * w + d,
    ensures
        a == c,
        b == d,
{
    if a < c {
        assert(a * w + b < c * w + d) by (nonlinear_arith)
            requires
                a < c,
                0 <= b < w,
                0 <= d,
        ;
    } else if a > c {
        assert(a * w + b > c * w + d) by (nonlinear_arith)
            requires
                a > c,
                0 <= d < w,
                0 <= b,
        ;
    }
}

fn is_opaque(src: &DecodedAsset, x: u32, y: u32) -> (r: bool)
    requires
        src.rgba@.len() >= src.width * src.height * 4,
        src.width * src.height * 4 <= u32::MAX,
        x < src.width,
        y < src.height,
    ensures
        r == opaque_at(src.rgba@, src.width as int, src.height as int, x as int, y as int),
{
    let w = src.width;
    assert((y * w + x) * 4 + 3 < w * src.height * 4) by (nonlinear_arith)
        requires
            x < w,
            y < src.height,
    ;
    let i = ((y * w + x) * 4 + 3) as usize;
    src.rgba[i] >= 128
}

fn opaque_or_outside(src: &DecodedAsset, x: i64, y: i64) -> (r: bool)
    requires
        src.rgba@.len() >= src.width * src.height * 4,
        src.width * src.height * 4 <= u32::MAX,
    ensures
        r == opaque_at(src.rgba@, src.width as int, src.height as int, x as int, y as int),
{
    if x < 0 || y < 0 || x >= src.width as i64 || y >= src.height as i64 {
        false
    } else {
        is_opaque(src, x as u32, y as u32)
    }
}

/// Build the `(w + 2) × (h + 2)` white outline of `src`'s opaque
/// silhouette.
pub fn outline_sprite(src: &DecodedAsset) -> (o: DecodedAsset)
    requires
        src.rgba@.len() >= src.width * src.height * 4,
        (src.width + 2) * (src.height + 2) * 4 <= u32::MAX,
    ensures
        o.width == src.width + 2,
        o.height == src.height + 2,
        o.rgba@.len() == o.width * o.height * 4,
        forall|ex: int, ey: int, c: int|
            0 <= ex < o.width && 0 <= ey < o.height && 0 <= c < 4 ==> o.rgba@[(ey * o.width + ex) * 4 + c]
                == outline_value(src.rgba@, src.width as int, src.height as int, ex, ey, c),
{
    let w = src.width;
    let h = src.height;
    assert(w * h * 4 <= (w + 2) * (h + 2) * 4) by (nonlinear_arith);
    assert(w + 2 <= u32::MAX && h + 2 <= u32::MAX) by (nonlinear_arith)
        requires
            (w + 2) * (h + 2) * 4 <= u32::MAX,
    ;
    let ow = w + 2;
    let oh = h + 2;
    let ghost px = src.rgba@;
    let mut out: Vec<u8> = Vec::new();
    let mut ey: u32 = 0;
    while ey < oh
        invariant
            w == src.width,
            h == src.height,
            ow == w + 2,
            oh == h + 2,
            px == src.rgba@,
            px.len() >= w * h * 4,
            ow * oh * 4 <= u32::MAX,
            w * h * 4 <= u32::MAX,
            ey <= oh,
            out@.len() == ey * ow * 4,
            forall|x: int, y: int, c: int| 0 <= x < ow && 0 <= y < ey && 0 <= c < 4 ==> out@[(y * ow + x) * 4 + c]
                == outline_value(px, w as int, h as int, x, y, c),
        decreases oh - ey,
    {
        let mut ex: u32 = 0;
        while ex < ow
            invariant
                w == src.width,
                h == src.height,
                ow == w + 2,
                oh == h + 2,
                px == src.rgba@,
                px.len() >= w * h * 4,
                ow * oh * 4 <= u32::MAX,
                w * h * 4 <= u32::MAX,
                ey < oh,
                ex <= ow,
                out@.len() == (ey * ow + ex) * 4,
                forall|x: int, y: int, c: int|
                    0 <= x < ow && 0 <= y <= ey && 0 <= c < 4 && (y * ow + x) < ey * ow + ex ==> out@[(y * ow + x) * 4 + c]
                        == outline_value(px, w as int, h as int, x, y, c),
            decreases ow - ex,
        {
            let sx = ex as i64 - 1;
            let sy = ey as i64 - 1;
            let on = opaque_or_outside(src, sx, sy);
            let near = opaque_or_outside(src, sx, sy - 1) || opaque_or_outside(src, sx, sy + 1)
                || opaque_or_outside(src, sx - 1, sy) || opaque_or_outside(src, sx + 1, sy);
            let v: u8 = if on { 0 } else if near { 255 } else { 0 };
            let ghost before = out@;
            out.push(v);
            out.push(v);
            out.push(v);
            out.push(v);
            proof {
                let p = ey * ow + ex;
                assert forall|x: int, y: int, c: int|
                    0 <= x < ow && 0 <= y <= ey && 0 <= c < 4 && (y * ow + x) < p + 1 implies out@[(y * ow + x) * 4 + c]
                        == outline_value(px, w as int, h as int, x, y, c) by {
                    if y * ow + x < p {
                        assert((y * ow + x) * 4 + c < p * 4) by (nonlinear_arith)
                            requires
                                y * ow + x < p,
                                c < 4,
                        ;
                        assert(out@[(y * ow + x) * 4 + c] == before[(y * ow + x) * 4 + c]);
                    } else {
                        lemma_grid_index_unique(y, x, ey as int, ex as int, ow as int);
                        assert((y * ow + x) * 4 + c == p * 4 + c);
                    }
                }
            }
            ex = ex + 1;
        }
        proof {
            assert forall|x: int, y: int, c: int| 0 <= x < ow && 0 <= y < ey + 1 && 0 <= c < 4 implies out@[(y * ow + x) * 4 + c]
                == outline_value(px, w as int, h as int, x, y, c) by {
                assert(y * ow + x < ey * ow + ow) by (nonlinear_arith)
                    requires
                        y <= ey,
                        x < ow,
                ;
            }
            assert(out@.len() == (ey + 1) * ow * 4) by (nonlinear_arith)
                requires
                    out@.len() == (ey * ow + ow) * 4,
            ;
        }
        ey = ey + 1;
    }
    assert(out@.len() == ow * oh * 4) by (nonlinear_arith)
        requires
            out@.len() == oh * ow * 4,
    ;
    DecodedAsset { width: ow, height: oh, rgba: out }
}

} // verus!
