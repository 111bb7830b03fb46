//! Image-tier frame composition: upscaling sprites for the cell tiers and
//! serialising a Kitty placeholder frame for a list of placements.

use std::collections::HashSet;

use vstd::prelude::*;
use vstd::utf8::encode_utf8;

use crate::assets::{string_asset_id, AssetStore, DecodedAsset};
use crate::render::kitty::{
    cursor_seq, cursor_to, encode_transmit, encode_virtual_placement, image_id_of, placeholder_rows,
    placeholder_text, sprite_upload, virtual_placement, Placement,
};
use crate::text::append_bytes;

verus! {

broadcast use vstd::std_specs::hash::group_hash_axioms;

/// Nearest-neighbour upscale: pixel `(x, y)` of the result is source pixel
/// `(x / f, y / f)`.
pub open spec fn scaled_pixel(rgba: Seq<u8>, w: int, f: int, x: int, y: int, c: int) -> u8 {
    rgba[((y / f) * w + x / f) * 4 + c]
}

/// Nearest-neighbour integer upscale of RGBA8 pixels by `factor`; a factor
/// of 0 or 1 copies them. Returns the pixels and the new width and height.
pub fn scale_rgba(rgba: &[u8], w: u32, h: u32, factor: u32) -> (r: (Vec<u8>, u32, u32))
    requires
        rgba@.len() >= w * h * 4,
        factor > 1 ==> w * factor <= u32::MAX && h * factor <= u32::MAX && (w * factor) * (h * factor) * 4 <= u32::MAX,
    ensures
        factor <= 1 ==> r.0@ == rgba@ && r.1 == w && r.2 == h,
        factor > 1 ==> {
            &&& r.1 == w * factor
            &&& r.2 == h * factor
            &&& r.0@.len() == r.1 * r.2 * 4
            &&& forall|x: int, y: int, c: int| 0 <= x < r.1 && 0 <= y < r.2 && 0 <= c < 4
                ==> r.0@[(y * r.1 + x) * 4 + c] == scaled_pixel(rgba@, w as int, factor as int, x, y, c)
        },
{
    if factor <= 1 {
        let mut v: Vec<u8> = Vec::new();
        append_bytes(&mut v, rgba);
        assert(v@ =~= rgba@);
        return (v, w, h);
    }
    let nw = w * factor;
    let nh = h * factor;
    assert(w * h * 4 <= nw * nh * 4) by (nonlinear_arith)
        requires
            nw == w * factor,
            nh == h * factor,
            factor > 1,
    ;
    let mut out: Vec<u8> = Vec::new();
    let mut y: u32 = 0;
    while y < nh
        invariant
            nw == w * factor,
            nh == h * factor,
            factor > 1,
            nw * nh * 4 <= u32::MAX,
            w * h * 4 <= u32::MAX,
            rgba@.len() >= w * h * 4,
            y <= nh,
            out@.len() == y * nw * 4,
            forall|x2: int, y2: int, c: int| 0 <= x2 < nw && 0 <= y2 < y && 0 <= c < 4
                ==> out@[(y2 * nw + x2) * 4 + c] == scaled_pixel(rgba@, w as int, factor as int, x2, y2, c),
        decreases nh - y,
    {
        let mut x: u32 = 0;
        while x < nw
            invariant
                nw == w * factor,
                nh == h * factor,
                factor > 1,
                nw * nh * 4 <= u32::MAX,
                w * h * 4 <= u32::MAX,
                rgba@.len() >= w * h * 4,
                y < nh,
                x <= nw,
                out@.len() == (y * nw + x) * 4,
                forall|x2: int, y2: int, c: int| 0 <= x2 < nw && 0 <= y2 <= y && 0 <= c < 4 && y2 * nw + x2 < y * nw + x
                    ==> out@[(y2 * nw + x2) * 4 + c] == scaled_pixel(rgba@, w as int, factor as int, x2, y2, c),
            decreases nw - x,
        {
            let sx = x / factor;
            let sy = y / factor;
            assert(sx < w && sy < h) by (nonlinear_arith)
                requires
                    x < w * factor,
                    y < h * factor,
                    factor > 1,
                    sx == x / factor,
                    sy == y / factor,
            ;
            assert((sy * w + sx) * 4 + 3 < w * h * 4) by (nonlinear_arith)
                requires
                    sx < w,
                    sy < h,
            ;
            let si = ((sy * w + sx) * 4) as usize;
            let ghost before = out@;
            out.push(rgba[si]);
            out.push(rgba[si + 1]);
            out.push(rgba[si + 2]);
            out.push(rgba[si + 3]);
            proof {
                let p = y * nw + x;
                assert forall|x2: int, y2: int, c: int| 0 <= x2 < nw && 0 <= y2 <= y && 0 <= c < 4 && y2 * nw + x2 < p + 1
                    implies out@[(y2 * nw + x2) * 4 + c] == scaled_pixel(rgba@, w as int, factor as int, x2, y2, c) by {
                    if y2 * nw + x2 < p {
                        assert((y2 * nw + x2) * 4 + c < p * 4) by (nonlinear_arith)
                            requires
                                y2 * nw + x2 < p,
                                c < 4,
                        ;
                        assert(out@[(y2 * nw + x2) * 4 + c] == before[(y2 * nw + x2) * 4 + c]);
                    } else {
                        crate::render::outline::lemma_grid_index_unique(y2, x2, y as int, x as int, nw as int);
                    }
                }
            }
            x = x + 1;
        }
        proof {
            assert forall|x2: int, y2: int, c: int| 0 <= x2 < nw && 0 <= y2 < y + 1 && 0 <= c < 4
                implies out@[(y2 * nw + x2) * 4 + c] == scaled_pixel(rgba@, w as int, factor as int, x2, y2, c) by {
                assert(y2 * nw + x2 < y * nw + nw) by (nonlinear_arith)
                    requires
                        y2 <= y,
                        x2 < nw,
                ;
            }
            assert(out@.len() == (y + 1) * nw * 4) by (nonlinear_arith)
                requires
                    out@.len() == (y * nw + nw) * 4,
            ;
        }
        y = y + 1;
    }
    assert(out@.len() == nw * nh * 4) by (nonlinear_arith)
        requires
            out@.len() == nh * nw * 4,
    ;
    (out, nw, nh)
}

/// Where a sprite lands on the cell grid for image-tier placement.
#[derive(Debug, Clone, Copy, PartialEq, Eq, Structural)]
pub struct ImagePlacement {
    pub image_id: u32,
    pub placement: Placement,
}

/// The first stored sprite (in entry order) whose name hashes to `image_id`.
pub open spec fn sprite_with_id(entries: Seq<(String, DecodedAsset)>, image_id: u32) -> Option<DecodedAsset>
    decreases entries.len(),
{
    if entries.len() == 0 {
        None
    } else if image_id_of(entries[0].0@) == image_id {
        Some(entries[0].1)
    } else {
        sprite_with_id(entries.drop_first(), image_id)
    }
}

/// Walking the first `k` placements: the upload bytes, the ids met in this
/// frame, and the ids uploaded. An id is handled at its first placement in
/// the frame: unless already uploaded, the stored sprite with that id is
/// transmitted and the id recorded as uploaded; an id with no stored sprite
/// yet is neither transmitted nor recorded, so a later frame sends it once
/// it is decoded.
pub open spec fn frame_uploads(ps: Seq<ImagePlacement>, k: nat, entries: Seq<(String, DecodedAsset)>, uploaded: Set<u32>) -> (Seq<u8>, Set<u32>, Set<u32>)
    decreases k,
{
    if k == 0 {
        (Seq::empty(), Set::empty(), uploaded)
    } else {
        let (bytes, seen, up) = frame_uploads(ps, (k - 1) as nat, entries, uploaded);
        let id = ps[k - 1].image_id;
        if seen.contains(id) || up.contains(id) {
            (bytes, seen.insert(id), up)
        } else {
            match sprite_with_id(entries, id) {
                Some(s) => (bytes + sprite_upload(id, s), seen.insert(id), up.insert(id)),
                None => (bytes, seen.insert(id), up),
            }
        }
    }
}

/// The bytes placing one entity: cursor to its first cell, its virtual
/// placement (placement id 1), and its placeholder cells.
pub open spec fn placement_bytes(p: ImagePlacement) -> Seq<u8> {
    let pl = p.placement;
    cursor_seq(pl.cell_col, pl.cell_row) + virtual_placement(p.image_id, 1, pl.cols, pl.rows, pl.x_off, pl.y_off)
        + encode_utf8(placeholder_rows(p.image_id, pl.cols as nat, pl.rows as nat, pl.rows as nat))
}

/// The placing bytes of the first `k` placements.
pub open spec fn placements_bytes(ps: Seq<ImagePlacement>, k: nat) -> Seq<u8>
    decreases k,
{
    if k == 0 {
        Seq::empty()
    } else {
        placements_bytes(ps, (k - 1) as nat) + placement_bytes(ps[k - 1])
    }
}

/// The stored sprite whose name hashes to `image_id`, first in entry order.
fn asset_by_image_id(assets: &AssetStore, image_id: u32) -> (r: Option<&DecodedAsset>)
    requires
        assets.wf(),
    ensures
        match sprite_with_id(assets.entries(), image_id) {
            Some(s) => r == Some(&s),
            None => r is None,
        },
{
    let entries = assets.iter();
    let mut i: usize = 0;
    assert(entries@.skip(0) =~= entries@);
    while i < entries.len()
        invariant
            entries@ == assets.entries(),
            i <= entries@.len(),
            sprite_with_id(entries@, image_id) == sprite_with_id(entries@.skip(i as int), image_id),
        decreases entries@.len() - i,
    {
        let ghost rest = entries@.skip(i as int);
        if string_asset_id(entries[i].0.as_str()) == image_id {
            assert(rest[0] == entries@[i as int]);
            return Some(&entries[i].1);
        }
        assert(rest.drop_first() =~= entries@.skip(i + 1));
        i = i + 1;
    }
    None
}

/// Append the bytes placing one entity.
fn push_placement(out: &mut Vec<u8>, p: ImagePlacement)
    ensures
        final(out)@ == old(out)@ + placement_bytes(p),
{
    let pl = p.placement;
    let c = cursor_to(pl.cell_col, pl.cell_row);
    append_bytes(out, c.as_slice());
    let v = encode_virtual_placement(p.image_id, 1, pl.cols, pl.rows, pl.x_off, pl.y_off);
    append_bytes(out, v.as_slice());
    let t = placeholder_text(p.image_id, pl.cols, pl.rows);
    append_bytes(out, t.as_str().as_bytes());
    assert(out@ =~= old(out)@ + placement_bytes(p));
}

/// Serialise a Kitty placeholder frame: upload each sprite referenced here
/// that was not uploaded yet (once, in placement order), then for each
/// placement move the cursor, create its virtual placement and write its
/// placeholder cells.
pub fn compose_t1k_frame(placements: &[ImagePlacement], assets: &AssetStore, uploaded: &mut HashSet<u32>) -> (out: Vec<u8>)
    requires
        assets.wf(),
    ensures
        ({
            let (bytes, seen, up) = frame_uploads(placements@, placements@.len(), assets.entries(), old(uploaded)@);
            &&& out@ == bytes + placements_bytes(placements@, placements@.len())
            &&& final(uploaded)@ == up
        }),
{
    let mut out: Vec<u8> = Vec::new();
    let mut seen: HashSet<u32> = HashSet::new();
    let mut i: usize = 0;
    while i < placements.len()
        invariant
            assets.wf(),
            i <= placements@.len(),
            (out@, seen@, uploaded@) == frame_uploads(placements@, i as nat, assets.entries(), old(uploaded)@),
        decreases placements@.len() - i,
    {
        let id = placements[i].image_id;
        let fresh = seen.insert(id);
        if fresh && !uploaded.contains(&id) {
            match asset_by_image_id(assets, id) {
                Some(sprite) => {
                    uploaded.insert(id);
                    let frames = encode_transmit(id, sprite.width, sprite.height, sprite.rgba.as_slice());
                    append_bytes(&mut out, frames.as_slice());
                },
                None => {},
            }
        }
        i = i + 1;
    }
    let ghost up_bytes = out@;
    let mut j: usize = 0;
    while j < placements.len()
        invariant
            j <= placements@.len(),
            out@ == up_bytes + placements_bytes(placements@, j as nat),
        decreases placements@.len() - j,
    {
        push_placement(&mut out, placements[j]);
        j = j + 1;
        assert(out@ =~= up_bytes + placements_bytes(placements@, j as nat));
    }
    out
}

/// After the first `k` placements: the ids uploaded are those uploaded
/// before and the ids met that have a stored sprite; every id met is
/// uploaded or has no stored sprite.
pub proof fn lemma_frame_uploads_record(ps: Seq<ImagePlacement>, k: nat, entries: Seq<(String, DecodedAsset)>, uploaded: Set<u32>)
    requires
        k <= ps.len(),
    ensures
        forall|id: u32|
            #[trigger] frame_uploads(ps, k, entries, uploaded).2.contains(id) <==> (uploaded.contains(id) || exists|i: int|
                0 <= i < k && ps[i].image_id == id && sprite_with_id(entries, id) is Some),
        forall|i: int| 0 <= i < k ==> frame_uploads(ps, k, entries, uploaded).1.contains(#[trigger] ps[i].image_id),
        forall|id: u32| #[trigger] frame_uploads(ps, k, entries, uploaded).1.contains(id) ==> exists|i: int|
            0 <= i < k && ps[i].image_id == id,
    decreases k,
{
    if k > 0 {
        lemma_frame_uploads_record(ps, (k - 1) as nat, entries, uploaded);
        let up = frame_uploads(ps, k, entries, uploaded).2;
        let up0 = frame_uploads(ps, (k - 1) as nat, entries, uploaded).2;
        let seen0 = frame_uploads(ps, (k - 1) as nat, entries, uploaded).1;
        let id = ps[k - 1].image_id;
        assert forall|x: u32| #[trigger] up.contains(x) <==> (uploaded.contains(x) || exists|i: int|
            0 <= i < k && ps[i].image_id == x && sprite_with_id(entries, x) is Some) by {
            if up.contains(x) && !uploaded.contains(x) {
                if up0.contains(x) {
                    let i = choose|i: int| 0 <= i < k - 1 && ps[i].image_id == x && sprite_with_id(entries, x) is Some;
                    assert(0 <= i < k);
                } else {
                    assert(x == id);
                }
            }
            if exists|i: int| 0 <= i < k && ps[i].image_id == x && sprite_with_id(entries, x) is Some {
                let i = choose|i: int| 0 <= i < k && ps[i].image_id == x && sprite_with_id(entries, x) is Some;
                if i < k - 1 {
                    assert(up0.contains(x));
                } else if seen0.contains(x) {
                    let j = choose|j: int| 0 <= j < k - 1 && ps[j].image_id == x;
                    assert(up0.contains(x));
                }
            }
        }
        assert forall|x: u32| #[trigger] frame_uploads(ps, k, entries, uploaded).1.contains(x) implies exists|i: int|
            0 <= i < k && ps[i].image_id == x by {
            if x != id {
                let j = choose|j: int| 0 <= j < k - 1 && ps[j].image_id == x;
                assert(0 <= j < k);
            } else {
                assert(ps[k - 1].image_id == x);
            }
        }
    }
}

/// With every id already uploaded or without a stored sprite, a frame
/// uploads nothing.
pub proof fn lemma_frame_uploads_nothing_new(ps: Seq<ImagePlacement>, k: nat, entries: Seq<(String, DecodedAsset)>, uploaded: Set<u32>)
    requires
        k <= ps.len(),
        forall|i: int| 0 <= i < k ==> uploaded.contains(#[trigger] ps[i].image_id) || sprite_with_id(entries, ps[i].image_id) is None,
    ensures
        frame_uploads(ps, k, entries, uploaded).0 == Seq::<u8>::empty(),
        frame_uploads(ps, k, entries, uploaded).2 == uploaded,
    decreases k,
{
    if k > 0 {
        lemma_frame_uploads_nothing_new(ps, (k - 1) as nat, entries, uploaded);
        assert(uploaded.contains(ps[k - 1].image_id) || sprite_with_id(entries, ps[k - 1].image_id) is None);
    }
}

/// Two frames of the same placements over the same sprites: the first
/// transmits each stored sprite not uploaded before, once, and records
/// exactly those ids besides the earlier ones; the second transmits nothing
/// and only places.
pub proof fn lemma_second_frame_only_places(ps: Seq<ImagePlacement>, entries: Seq<(String, DecodedAsset)>, uploaded: Set<u32>)
    ensures
        ({
            let after = frame_uploads(ps, ps.len(), entries, uploaded).2;
            &&& forall|id: u32| #[trigger] after.contains(id) <==> (uploaded.contains(id) || exists|i: int|
                0 <= i < ps.len() && ps[i].image_id == id && sprite_with_id(entries, id) is Some)
            &&& frame_uploads(ps, ps.len(), entries, after).0 == Seq::<u8>::empty()
            &&& frame_uploads(ps, ps.len(), entries, after).2 == after
        }),
{
    lemma_frame_uploads_record(ps, ps.len(), entries, uploaded);
    let after = frame_uploads(ps, ps.len(), entries, uploaded).2;
    assert forall|i: int| 0 <= i < ps.len() implies after.contains(#[trigger] ps[i].image_id) || sprite_with_id(
        entries,
        ps[i].image_id,
    ) is None by {
        if sprite_with_id(entries, ps[i].image_id) is Some {
            assert(after.contains(ps[i].image_id));
        }
    }
    lemma_frame_uploads_nothing_new(ps, ps.len(), entries, after);
}

} // verus!
