//! Character sprite sheets sliced into animation frames. A sheet holds three
//! direction rows (down, up, right) of seven 16×32 frames; the walk, typing
//! and reading sets are cut from it, left is the mirrored right, and a hue
//! shift recolours the frames of a variant.

use std::collections::HashMap;

use vstd::prelude::*;

use crate::assets::DecodedAsset;
use crate::office::characters::{is_reading_tool, reading_tool};
use crate::office::types::{CharacterState, Direction};
use crate::text::{dec_chars, decimal, digit_char_of, push_dec_chars, string_from_chars};
use vstd::utf8::{encode_utf8, is_ascii_chars, is_ascii_chars_encode_utf8};
use vstd::string::*;

verus! {

broadcast use vstd::std_specs::hash::group_hash_axioms;

/// Width of one frame.
pub const FRAME_W: u32 = 16;
/// Height of one frame.
pub const FRAME_H: u32 = 32;
/// Frames per direction row of a sheet.
pub const FRAMES_PER_ROW: u32 = 7;
/// Direction rows of a sheet (down, up, right).
pub const DIR_ROWS: u32 = 3;
/// Width of a full sheet.
pub const SHEET_W: u32 = 112;
/// Height of a full sheet.
pub const SHEET_H: u32 = 96;

/// Bytes of one frame's pixels.
pub open spec fn frame_len() -> int {
    2048int
}

/// Channel `c` of pixel `(x, y)` of RGBA8 pixels `w` wide.
pub open spec fn pixel_byte(px: Seq<u8>, w: int, x: int, y: int, c: int) -> u8 {
    px[(y * w + x) * 4 + c]
}

/// `f` is frame `(col, row)` of `sheet`: pixel `(x, y)` of the frame is
/// sheet pixel `(16·col + x, 32·row + y)`.
pub open spec fn is_sheet_frame(f: Seq<u8>, sheet: Seq<u8>, sheet_w: int, col: int, row: int) -> bool {
    &&& f.len() == frame_len()
    &&& forall|x: int, y: int, c: int| 0 <= x < 16 && 0 <= y < 32 && 0 <= c < 4
        ==> #[trigger] pixel_byte(f, 16, x, y, c) == pixel_byte(sheet, sheet_w, col * 16 + x, row * 32 + y, c)
}

/// Frame `col, row` of the sheet, passed through `recolor` with the hue
/// shift unless the shift is zero.
pub open spec fn recolored_frame<F: Fn(Vec<u8>, i32) -> Vec<u8>>(f: Seq<u8>, sheet: Seq<u8>, sheet_w: int, col: int, row: int, hue_shift: i32, recolor: F) -> bool {
    if hue_shift == 0 {
        is_sheet_frame(f, sheet, sheet_w, col, row)
    } else {
        exists|v: Vec<u8>, r: Vec<u8>| is_sheet_frame(v@, sheet, sheet_w, col, row) && r@ == f
            && #[trigger] recolor.ensures((v, hue_shift), r)
    }
}

/// Slice frame `(col, row)` out of a sheet; a nonzero hue shift is applied
/// by `recolor`.
pub fn extract_frame<F: Fn(Vec<u8>, i32) -> Vec<u8>>(sheet: &DecodedAsset, col: u32, row: u32, hue_shift: i32, recolor: &F) -> (f: DecodedAsset)
    requires
        col < FRAMES_PER_ROW,
        row < DIR_ROWS,
        sheet.width >= SHEET_W,
        sheet.width * 96 <= u32::MAX,
        sheet.rgba@.len() >= sheet.width * 96 * 4,
        forall|v: Vec<u8>| #[trigger] recolor.requires((v, hue_shift)),
    ensures
        f.width == FRAME_W,
        f.height == FRAME_H,
        recolored_frame(f.rgba@, sheet.rgba@, sheet.width as int, col as int, row as int, hue_shift, *recolor),
{
    let x0 = col * FRAME_W;
    let y0 = row * FRAME_H;
    let w = sheet.width;
    let _n = sheet.rgba.len();
    let mut rgba: Vec<u8> = Vec::new();
    let mut y: u32 = 0;
    while y < FRAME_H
        invariant
            x0 == col * 16,
            y0 == row * 32,
            col < 7,
            row < 3,
            w == sheet.width,
            w >= 112,
            w * 96 <= u32::MAX,
            sheet.rgba@.len() >= w * 96 * 4,
            sheet.rgba@.len() <= usize::MAX,
            y <= 32,
            rgba@.len() == y * 16 * 4,
            forall|x2: int, y2: int, c: int| 0 <= x2 < 16 && 0 <= y2 < y && 0 <= c < 4
                ==> #[trigger] pixel_byte(rgba@, 16, x2, y2, c) == pixel_byte(sheet.rgba@, w as int, col * 16 + x2, row * 32 + y2, c),
        decreases 32 - y,
    {
        let mut x: u32 = 0;
        while x < FRAME_W
            invariant
                x0 == col * 16,
                y0 == row * 32,
                col < 7,
                row < 3,
                w == sheet.width,
                w >= 112,
                w * 96 <= u32::MAX,
                sheet.rgba@.len() >= w * 96 * 4,
                sheet.rgba@.len() <= usize::MAX,
                y < 32,
                x <= 16,
                rgba@.len() == (y * 16 + x) * 4,
                forall|x2: int, y2: int, c: int| 0 <= x2 < 16 && 0 <= y2 <= y && 0 <= c < 4 && y2 * 16 + x2 < y * 16 + x
                    ==> #[trigger] pixel_byte(rgba@, 16, x2, y2, c) == pixel_byte(sheet.rgba@, w as int, col * 16 + x2, row * 32 + y2, c),
            decreases 16 - x,
        {
            assert((y0 + y) * w + x0 + x < w * 96) by (nonlinear_arith)
                requires
                    y0 + y < 96,
                    x0 + x < w,
            ;
            let si = ((y0 + y) * w + x0 + x) as usize * 4;
            let ghost before = rgba@;
            rgba.push(sheet.rgba[si]);
            rgba.push(sheet.rgba[si + 1]);
            rgba.push(sheet.rgba[si + 2]);
            rgba.push(sheet.rgba[si + 3]);
            proof {
                assert forall|x2: int, y2: int, c: int| 0 <= x2 < 16 && 0 <= y2 <= y && 0 <= c < 4 && y2 * 16 + x2 < y * 16 + x + 1
                    implies #[trigger] pixel_byte(rgba@, 16, x2, y2, c) == pixel_byte(sheet.rgba@, w as int, col * 16 + x2, row * 32 + y2, c) by {
                    if y2 * 16 + x2 < y * 16 + x {
                        assert(pixel_byte(rgba@, 16, x2, y2, c) == pixel_byte(before, 16, x2, y2, c));
                    } else {
                        crate::render::outline::lemma_grid_index_unique(y2, x2, y as int, x as int, 16);
                    }
                }
            }
            x = x + 1;
        }
        y = y + 1;
    }
    if hue_shift != 0 {
        let ghost v = rgba;
        let shifted = recolor(rgba, hue_shift);
        proof {
            assert(is_sheet_frame(v@, sheet.rgba@, w as int, col as int, row as int));
        }
        DecodedAsset { width: FRAME_W, height: FRAME_H, rgba: shifted }
    } else {
        DecodedAsset { width: FRAME_W, height: FRAME_H, rgba }
    }
}

/// `g` is the horizontal mirror of the `w × h` pixels `f`: pixel `(x, y)`
/// of `g` is pixel `(w - 1 - x, y)` of `f`; bytes past the pixels are zero.
pub open spec fn is_mirror(g: Seq<u8>, f: Seq<u8>, w: int, h: int) -> bool {
    &&& g.len() == f.len()
    &&& forall|x: int, y: int, c: int| 0 <= x < w && 0 <= y < h && 0 <= c < 4
        ==> #[trigger] pixel_byte(g, w, x, y, c) == pixel_byte(f, w, w - 1 - x, y, c)
    &&& forall|i: int| w * h * 4 <= i < g.len() ==> g[i] == 0
}

/// Mirror a sprite horizontally (left is the mirrored right).
pub fn flip_h(src: &DecodedAsset) -> (o: DecodedAsset)
    requires
        src.width * src.height <= u32::MAX,
        src.rgba@.len() >= src.width * src.height * 4,
    ensures
        o.width == src.width,
        o.height == src.height,
        is_mirror(o.rgba@, src.rgba@, src.width as int, src.height as int),
{
    let w = src.width;
    let h = src.height;
    let total = src.rgba.len();
    let mut rgba: Vec<u8> = Vec::new();
    let mut y: u32 = 0;
    while y < h
        invariant
            w == src.width,
            h == src.height,
            w * h <= u32::MAX,
            total == src.rgba@.len(),
            total >= w * h * 4,
            y <= h,
            rgba@.len() == y * w * 4,
            forall|x2: int, y2: int, c: int| 0 <= x2 < w && 0 <= y2 < y && 0 <= c < 4
                ==> #[trigger] pixel_byte(rgba@, w as int, x2, y2, c) == pixel_byte(src.rgba@, w as int, w - 1 - x2, y2, c),
        decreases h - y,
    {
        let mut x: u32 = 0;
        while x < w
            invariant
                w == src.width,
                h == src.height,
                w * h <= u32::MAX,
                total == src.rgba@.len(),
                total >= w * h * 4,
                y < h,
                x <= w,
                rgba@.len() == (y * w + x) * 4,
                forall|x2: int, y2: int, c: int| 0 <= x2 < w && 0 <= y2 <= y && 0 <= c < 4 && y2 * w + x2 < y * w + x
                    ==> #[trigger] pixel_byte(rgba@, w as int, x2, y2, c) == pixel_byte(src.rgba@, w as int, w - 1 - x2, y2, c),
            decreases w - x,
        {
            let sx = w - 1 - x;
            assert(y * w + sx < w * h) by (nonlinear_arith)
                requires
                    y < h,
                    sx < w,
            ;
            let si = (y * w + sx) as usize * 4;
            let ghost before = rgba@;
            rgba.push(src.rgba[si]);
            rgba.push(src.rgba[si + 1]);
            rgba.push(src.rgba[si + 2]);
            rgba.push(src.rgba[si + 3]);
            proof {
                assert forall|x2: int, y2: int, c: int| 0 <= x2 < w && 0 <= y2 <= y && 0 <= c < 4 && y2 * w + x2 < y * w + x + 1
                    implies #[trigger] pixel_byte(rgba@, w as int, x2, y2, c) == pixel_byte(src.rgba@, w as int, w - 1 - x2, y2, c) by {
                    if y2 * w + x2 < y * w + x {
                        assert((y2 * w + x2) * 4 + c < (y * w + x) * 4) by (nonlinear_arith)
                            requires
                                y2 * w + x2 < y * w + x,
                                c < 4,
                        ;
                        assert(pixel_byte(rgba@, w as int, x2, y2, c) == pixel_byte(before, w as int, x2, y2, c));
                    } else {
                        crate::render::outline::lemma_grid_index_unique(y2, x2, y as int, x as int, w as int);
                    }
                }
            }
            x = x + 1;
        }
        proof {
            assert forall|x2: int, y2: int, c: int| 0 <= x2 < w && 0 <= y2 < y + 1 && 0 <= c < 4
                implies #[trigger] pixel_byte(rgba@, w as int, x2, y2, c) == pixel_byte(src.rgba@, w as int, w - 1 - x2, y2, c) by {
                assert(y2 * w + x2 < y * w + w) by (nonlinear_arith)
                    requires
                        y2 <= y,
                        x2 < w,
                ;
            }
            assert(rgba@.len() == (y + 1) * w * 4) by (nonlinear_arith)
                requires
                    rgba@.len() == (y * w + w) * 4,
            ;
        }
        y = y + 1;
    }
    assert(rgba@.len() == w * h * 4) by (nonlinear_arith)
        requires
            rgba@.len() == h * w * 4,
    ;
    let ghost pixels = rgba@;
    let mut i: usize = rgba.len();
    while i < total
        invariant
            w * h * 4 == pixels.len(),
            total == src.rgba@.len(),
            pixels.len() <= i <= total,
            rgba@.len() == i,
            forall|k: int| 0 <= k < pixels.len() ==> rgba@[k] == pixels[k],
            forall|k: int| pixels.len() <= k < i ==> rgba@[k] == 0,
        decreases total - i,
    {
        rgba.push(0);
        i = i + 1;
    }
    proof {
        assert forall|x: int, y: int, c: int| 0 <= x < w && 0 <= y < h && 0 <= c < 4
            implies #[trigger] pixel_byte(rgba@, w as int, x, y, c) == pixel_byte(src.rgba@, w as int, w - 1 - x, y, c) by {
            assert((y * w + x) * 4 + c < w * h * 4) by (nonlinear_arith)
                requires
                    0 <= x < w,
                    0 <= y < h,
                    0 <= c < 4,
            ;
            assert(pixel_byte(pixels, w as int, x, y, c) == pixel_byte(src.rgba@, w as int, w - 1 - x, y, c));
        }
    }
    DecodedAsset { width: w, height: h, rgba }
}

/// The frame column of walk frame `k`: the cycle 0, 1, 2, 1.
pub open spec fn walk_col(k: int) -> int {
    if k == 3 { 1 } else { k }
}

/// Frames per direction of a kind: walk (0) has four, typing (1) and
/// reading (2) two.
pub open spec fn frames_of_kind(kind: int) -> int {
    if kind == 0 { 4 } else { 2 }
}

/// The sheet column of frame `k` of a kind: walk cycles 0, 1, 2, 1; typing
/// is 3, 4; reading is 5, 6.
pub open spec fn kind_col(kind: int, k: int) -> int {
    if kind == 0 {
        walk_col(k)
    } else if kind == 1 {
        3 + k
    } else {
        5 + k
    }
}

/// One palette and hue's animation frames: walk, typing and reading, per
/// direction (down, up, right, left).
pub struct CharacterSpriteSet {
    walk: Vec<Vec<DecodedAsset>>,
    typing: Vec<Vec<DecodedAsset>>,
    reading: Vec<Vec<DecodedAsset>>,
}

/// The index of a direction among the frame rows: down, up, right, left.
pub open spec fn dir_index(d: Direction) -> int {
    match d {
        Direction::Down => 0,
        Direction::Up => 1,
        Direction::Right => 2,
        Direction::Left => 3,
    }
}

fn dir_idx(d: Direction) -> (i: usize)
    ensures
        i == dir_index(d),
{
    match d {
        Direction::Down => 0,
        Direction::Up => 1,
        Direction::Right => 2,
        Direction::Left => 3,
    }
}

/// The frame kind a character shows: typing or reading (by its tool) when
/// at work, walking otherwise.
pub open spec fn pose_kind(state: CharacterState, tool: Seq<char>) -> int {
    match state {
        CharacterState::Type => if reading_tool(tool) { 2 } else { 1 },
        _ => 0,
    }
}

/// The frame within its kind: the animation frame modulo the cycle length,
/// the standing pose (walk frame 1) when idle.
pub open spec fn pose_frame(state: CharacterState, frame: u8) -> int {
    match state {
        CharacterState::Type => frame as int % 2,
        CharacterState::Walk => frame as int % 4,
        CharacterState::Idle => 1,
    }
}

impl CharacterSpriteSet {
    /// Frame `k` of kind `kind` in direction `d`.
    pub closed spec fn frame_of(&self, kind: int, d: int, k: int) -> DecodedAsset {
        if kind == 0 {
            self.walk@[d]@[k]
        } else if kind == 1 {
            self.typing@[d]@[k]
        } else {
            self.reading@[d]@[k]
        }
    }

    /// Four directions, four walk frames and two each of typing and reading.
    pub closed spec fn shape_ok(&self) -> bool {
        &&& self.walk@.len() == 4
        &&& self.typing@.len() == 4
        &&& self.reading@.len() == 4
        &&& forall|d: int| 0 <= d < 4 ==> (#[trigger] self.walk@[d])@.len() == 4
        &&& forall|d: int| 0 <= d < 4 ==> (#[trigger] self.typing@[d])@.len() == 2
        &&& forall|d: int| 0 <= d < 4 ==> (#[trigger] self.reading@[d])@.len() == 2
    }

    /// The frame a character in `state`, facing `dir`, at animation frame
    /// `frame`, using `tool`, shows.
    pub fn frame_for(&self, state: CharacterState, dir: Direction, frame: u8, tool: Option<&str>) -> (f: &DecodedAsset)
        requires
            self.shape_ok(),
        ensures
            *f == self.frame_of(
                pose_kind(state, match tool { Some(t) => t@, None => ""@ }),
                dir_index(dir),
                pose_frame(state, frame),
            ),
    {
        let d = dir_idx(dir);
        let fi = frame as usize;
        match state {
            CharacterState::Type => {
                let t = match tool {
                    Some(t) => t,
                    None => "",
                };
                if is_reading_tool(t) {
                    &self.reading[d][fi % 2]
                } else {
                    &self.typing[d][fi % 2]
                }
            },
            CharacterState::Walk => &self.walk[d][fi % 4],
            CharacterState::Idle => &self.walk[d][1],
        }
    }
}

/// What the frames of a set are, the recolouring left open: every frame is
/// 16×32; with no hue shift the down, up and right frames are the sheet's
/// frames at their columns; the left frames mirror the right ones.
pub open spec fn frames_ok(set: CharacterSpriteSet, sheet: Seq<u8>, sheet_w: int, hue_shift: i32) -> bool {
    &&& set.shape_ok()
    &&& forall|kind: int, d: int, k: int| 0 <= kind < 3 && 0 <= d < 4 && 0 <= k < frames_of_kind(kind) ==> {
        let f = #[trigger] set.frame_of(kind, d, k);
        &&& f.width == FRAME_W
        &&& f.height == FRAME_H
        &&& f.rgba@.len() == frame_len()
        &&& (d < 3 && hue_shift == 0 ==> is_sheet_frame(f.rgba@, sheet, sheet_w, kind_col(kind, k), d))
        &&& (d == 3 ==> is_mirror(f.rgba@, set.frame_of(kind, 2, k).rgba@, 16, 32))
    }
}

/// The set built from a sheet with `recolor`: as `frames_ok`, and with a
/// hue shift the down, up and right frames are `recolor`'s output on the
/// sheet's frames.
pub open spec fn built_from<F: Fn(Vec<u8>, i32) -> Vec<u8>>(set: CharacterSpriteSet, sheet: Seq<u8>, sheet_w: int, hue_shift: i32, recolor: F) -> bool {
    &&& frames_ok(set, sheet, sheet_w, hue_shift)
    &&& forall|kind: int, d: int, k: int| 0 <= kind < 3 && 0 <= d < 3 && 0 <= k < frames_of_kind(kind)
        ==> recolored_frame((#[trigger] set.frame_of(kind, d, k)).rgba@, sheet, sheet_w, kind_col(kind, k), d, hue_shift, recolor)
}

/// `recolor` keeps the number of bytes it is given.
pub open spec fn keeps_length<F: Fn(Vec<u8>, i32) -> Vec<u8>>(recolor: F, hue_shift: i32) -> bool {
    forall|v: Vec<u8>, r: Vec<u8>| #[trigger] recolor.ensures((v, hue_shift), r) ==> r@.len() == v@.len()
}

/// The seven frames of one sheet row.
fn row_frames<F: Fn(Vec<u8>, i32) -> Vec<u8>>(sheet: &DecodedAsset, row: u32, hue_shift: i32, recolor: &F) -> (fs: Vec<DecodedAsset>)
    requires
        row < DIR_ROWS,
        sheet.width >= SHEET_W,
        sheet.width * 96 <= u32::MAX,
        sheet.rgba@.len() >= sheet.width * 96 * 4,
        forall|v: Vec<u8>| #[trigger] recolor.requires((v, hue_shift)),
        keeps_length(*recolor, hue_shift),
    ensures
        fs@.len() == 7,
        forall|c: int| 0 <= c < 7 ==> {
            let f = #[trigger] fs@[c];
            &&& f.width == FRAME_W
            &&& f.height == FRAME_H
            &&& f.rgba@.len() == frame_len()
            &&& recolored_frame(f.rgba@, sheet.rgba@, sheet.width as int, c, row as int, hue_shift, *recolor)
        },
{
    let mut fs: Vec<DecodedAsset> = Vec::new();
    let mut c: u32 = 0;
    while c < FRAMES_PER_ROW
        invariant
            row < 3,
            sheet.width >= 112,
            sheet.width * 96 <= u32::MAX,
            sheet.rgba@.len() >= sheet.width * 96 * 4,
            forall|v: Vec<u8>| #[trigger] recolor.requires((v, hue_shift)),
            keeps_length(*recolor, hue_shift),
            c <= 7,
            fs@.len() == c,
            forall|c2: int| 0 <= c2 < c ==> {
                let f = #[trigger] fs@[c2];
                &&& f.width == FRAME_W
                &&& f.height == FRAME_H
                &&& f.rgba@.len() == frame_len()
                &&& recolored_frame(f.rgba@, sheet.rgba@, sheet.width as int, c2, row as int, hue_shift, *recolor)
            },
        decreases 7 - c,
    {
        let f = extract_frame(sheet, c, row, hue_shift, recolor);
        proof {
            if hue_shift != 0 {
                let (v, r) = choose|v: Vec<u8>, r: Vec<u8>| is_sheet_frame(v@, sheet.rgba@, sheet.width as int, c as int, row as int)
                    && r@ == f.rgba@ && #[trigger] recolor.ensures((v, hue_shift), r);
                assert(recolor.ensures((v, hue_shift), r));
            }
        }
        fs.push(f);
        c = c + 1;
    }
    fs
}

/// Copies of the frames at `cols` of a row.
fn pick(fs: &Vec<DecodedAsset>, cols: &Vec<usize>) -> (out: Vec<DecodedAsset>)
    requires
        forall|i: int| 0 <= i < cols@.len() ==> cols@[i] < fs@.len(),
    ensures
        out@.len() == cols@.len(),
        forall|i: int| 0 <= i < cols@.len() ==> (#[trigger] out@[i]).view_parts() == fs@[cols@[i] as int].view_parts(),
{
    let mut out: Vec<DecodedAsset> = Vec::new();
    let mut i: usize = 0;
    while i < cols.len()
        invariant
            forall|j: int| 0 <= j < cols@.len() ==> cols@[j] < fs@.len(),
            i <= cols@.len(),
            out@.len() == i,
            forall|j: int| 0 <= j < i ==> (#[trigger] out@[j]).view_parts() == fs@[cols@[j] as int].view_parts(),
        decreases cols@.len() - i,
    {
        out.push(fs[cols[i]].duplicate());
        i = i + 1;
    }
    out
}

/// The mirror of each frame.
fn flip_all(fs: &Vec<DecodedAsset>) -> (out: Vec<DecodedAsset>)
    requires
        forall|i: int| 0 <= i < fs@.len() ==> (#[trigger] fs@[i]).width == FRAME_W && fs@[i].height == FRAME_H
            && fs@[i].rgba@.len() == frame_len(),
    ensures
        out@.len() == fs@.len(),
        forall|i: int| 0 <= i < fs@.len() ==> {
            let f = #[trigger] out@[i];
            &&& f.width == FRAME_W
            &&& f.height == FRAME_H
            &&& is_mirror(f.rgba@, fs@[i].rgba@, 16, 32)
        },
{
    let mut out: Vec<DecodedAsset> = Vec::new();
    let mut i: usize = 0;
    while i < fs.len()
        invariant
            forall|j: int| 0 <= j < fs@.len() ==> (#[trigger] fs@[j]).width == FRAME_W && fs@[j].height == FRAME_H
                && fs@[j].rgba@.len() == frame_len(),
            i <= fs@.len(),
            out@.len() == i,
            forall|j: int| 0 <= j < i ==> {
                let f = #[trigger] out@[j];
                &&& f.width == FRAME_W
                &&& f.height == FRAME_H
                &&& is_mirror(f.rgba@, fs@[j].rgba@, 16, 32)
            },
        decreases fs@.len() - i,
    {
        out.push(flip_h(&fs[i]));
        i = i + 1;
    }
    out
}

/// Build the full frame set from a sheet at one hue shift: walk uses frames
/// 0, 1, 2, 1, typing 3, 4, reading 5, 6 of each row; rows are down, up,
/// right, and left mirrors right.
pub fn build_set<F: Fn(Vec<u8>, i32) -> Vec<u8>>(sheet: &DecodedAsset, hue_shift: i32, recolor: &F) -> (set: CharacterSpriteSet)
    requires
        sheet.width >= SHEET_W,
        sheet.width * 96 <= u32::MAX,
        sheet.rgba@.len() >= sheet.width * 96 * 4,
        forall|v: Vec<u8>| #[trigger] recolor.requires((v, hue_shift)),
        keeps_length(*recolor, hue_shift),
    ensures
        built_from(set, sheet.rgba@, sheet.width as int, hue_shift, *recolor),
{
    let down = row_frames(sheet, 0, hue_shift, recolor);
    let up = row_frames(sheet, 1, hue_shift, recolor);
    let right = row_frames(sheet, 2, hue_shift, recolor);
    let walk_cols: Vec<usize> = vec![0, 1, 2, 1];
    let typing_cols: Vec<usize> = vec![3, 4];
    let reading_cols: Vec<usize> = vec![5, 6];
    let walk_right = pick(&right, &walk_cols);
    let typing_right = pick(&right, &typing_cols);
    let reading_right = pick(&right, &reading_cols);
    let walk_left = flip_all(&walk_right);
    let typing_left = flip_all(&typing_right);
    let reading_left = flip_all(&reading_right);
    let walk = vec![pick(&down, &walk_cols), pick(&up, &walk_cols), walk_right, walk_left];
    let typing = vec![pick(&down, &typing_cols), pick(&up, &typing_cols), typing_right, typing_left];
    let reading = vec![pick(&down, &reading_cols), pick(&up, &reading_cols), reading_right, reading_left];
    let set = CharacterSpriteSet { walk, typing, reading };
    proof {
        assert forall|kind: int, d: int, k: int| 0 <= kind < 3 && 0 <= d < 4 && 0 <= k < frames_of_kind(kind) implies {
            let f = #[trigger] set.frame_of(kind, d, k);
            &&& f.width == FRAME_W
            &&& f.height == FRAME_H
            &&& f.rgba@.len() == frame_len()
            &&& (d < 3 && hue_shift == 0 ==> is_sheet_frame(f.rgba@, sheet.rgba@, sheet.width as int, kind_col(kind, k), d))
            &&& (d == 3 ==> is_mirror(f.rgba@, set.frame_of(kind, 2, k).rgba@, 16, 32))
            &&& (d < 3 ==> recolored_frame(f.rgba@, sheet.rgba@, sheet.width as int, kind_col(kind, k), d, hue_shift, *recolor))
        } by {
            let src = if d == 0 { down@ } else if d == 1 { up@ } else { right@ };
            if d < 3 {
                assert(src[kind_col(kind, k)].rgba@.len() == frame_len());
            }
        }
    }
    set
}

/// Every byte is an ASCII digit.
pub open spec fn all_digits(s: Seq<u8>) -> bool {
    forall|i: int| 0 <= i < s.len() ==> 0x30 <= #[trigger] s[i] <= 0x39
}

/// The number written by ASCII digits.
pub open spec fn digits_value(s: Seq<u8>) -> int
    decreases s.len(),
{
    if s.len() == 0 {
        0
    } else {
        digits_value(s.drop_last()) * 10 + (s.last() - 0x30)
    }
}

/// How `u8::from_str` reads bytes: an optional `+`, then one or more
/// digits whose value is at most 255.
pub open spec fn parse_u8(s: Seq<u8>) -> Option<u8> {
    let body = if s.len() > 0 && s[0] == 0x2b { s.drop_first() } else { s };
    if body.len() > 0 && all_digits(body) && digits_value(body) <= 255 {
        Some(digits_value(body) as u8)
    } else {
        None
    }
}

/// `char_`, the prefix of a sheet's asset id.
pub open spec fn sheet_prefix() -> Seq<u8> {
    seq![0x63u8, 0x68, 0x61, 0x72, 0x5f]
}

/// The palette a sheet's asset id names: `char_` followed by a palette
/// number; nothing for any other id.
pub open spec fn palette_named(id: Seq<u8>) -> Option<u8> {
    if id.len() >= 5 && id.take(5) == sheet_prefix() {
        parse_u8(id.skip(5))
    } else {
        None
    }
}

/// The decimal text of `n` in characters: ASCII digits, byte for byte
/// those of `decimal(n)`, which reads back as `n`.
proof fn lemma_dec_chars_digits(n: nat)
    ensures
        dec_chars(n).len() == decimal(n).len(),
        decimal(n).len() > 0,
        forall|i: int| 0 <= i < dec_chars(n).len() ==> (#[trigger] dec_chars(n)[i]) as u8 == decimal(n)[i]
            && '0' <= dec_chars(n)[i] <= '9',
        all_digits(decimal(n)),
        digits_value(decimal(n)) == n,
    decreases n,
{
    if n >= 10 {
        lemma_dec_chars_digits(n / 10);
        let d = n % 10;
        assert(digit_char_of(d) as u8 == 48 + d && '0' <= digit_char_of(d) <= '9') by {
            if d == 0 {} else if d == 1 {} else if d == 2 {} else if d == 3 {} else if d == 4 {}
            else if d == 5 {} else if d == 6 {} else if d == 7 {} else if d == 8 {} else {}
        }
        assert(decimal(n).drop_last() =~= decimal(n / 10));
        assert(decimal(n).last() == (48 + n % 10) as u8);
        assert(digits_value(decimal(n)) == digits_value(decimal(n / 10)) * 10 + (n % 10));
    } else {
        assert(digit_char_of(n) as u8 == 48 + n && '0' <= digit_char_of(n) <= '9') by {
            if n == 0 {} else if n == 1 {} else if n == 2 {} else if n == 3 {} else if n == 4 {}
            else if n == 5 {} else if n == 6 {} else if n == 7 {} else if n == 8 {} else {}
        }
        assert(decimal(n).drop_last() =~= Seq::<u8>::empty());
        assert(digits_value(decimal(n).drop_last()) == 0);
        assert(digits_value(decimal(n)) == n);
    }
}

/// A palette's sheet id names that palette: reading the palette back from
/// `asset_id(p)` gives `p`.
pub proof fn lemma_asset_id_palette(p: u8)
    ensures
        palette_named(encode_utf8("char_"@ + dec_chars(p as nat))) == Some(p),
{
    reveal_strlit("char_");
    lemma_dec_chars_digits(p as nat);
    let cs = "char_"@ + dec_chars(p as nat);
    let want = sheet_prefix() + decimal(p as nat);
    assert(is_ascii_chars(cs)) by {
        assert forall|i| 0 <= i < cs.len() implies '\0' <= #[trigger] cs[i] <= '\u{7f}' by {
            if i >= 5 {
                assert(cs[i] == dec_chars(p as nat)[i - 5]);
            }
        }
    }
    is_ascii_chars_encode_utf8(cs);
    let b = encode_utf8(cs);
    assert forall|i: int| 0 <= i < b.len() implies #[trigger] b[i] == want[i] by {
        assert(cs[i] as u8 == b[i]);
        if i >= 5 {
            assert(cs[i] == dec_chars(p as nat)[i - 5]);
        }
    }
    assert(b =~= want);
    assert(b.take(5) =~= sheet_prefix());
    assert(b.skip(5) =~= decimal(p as nat));
}

proof fn lemma_digits_grow(s: Seq<u8>, i: int, j: int)
    requires
        0 <= i <= j <= s.len(),
        all_digits(s),
    ensures
        digits_value(s.take(i)) <= digits_value(s.take(j)),
        digits_value(s.take(i)) >= 0,
    decreases j - i,
{
    if i < j {
        lemma_digits_grow(s, i, j - 1);
        assert(s.take(j).drop_last() =~= s.take(j - 1));
        assert(s.take(j).last() == s[j - 1]);
    } else {
        lemma_digits_nonneg(s.take(i));
    }
}

proof fn lemma_digits_nonneg(s: Seq<u8>)
    requires
        all_digits(s),
    ensures
        digits_value(s) >= 0,
    decreases s.len(),
{
    if s.len() > 0 {
        assert(all_digits(s.drop_last()));
        lemma_digits_nonneg(s.drop_last());
    }
}

/// Read a palette number the way `u8::from_str` does.
fn parse_palette(s: &[u8], start: usize) -> (r: Option<u8>)
    requires
        start <= s@.len(),
    ensures
        r == parse_u8(s@.skip(start as int)),
{
    let ghost whole = s@.skip(start as int);
    let n = s.len();
    let mut i = start;
    if i < n && s[i] == 0x2b {
        i = i + 1;
    }
    let ghost body = s@.skip(i as int);
    assert(body == (if whole.len() > 0 && whole[0] == 0x2b { whole.drop_first() } else { whole }));
    if i == n {
        return None;
    }
    let b0 = i;
    let mut v: u16 = 0;
    while i < n
        invariant
            n == s@.len(),
            b0 <= i <= n,
            body == s@.skip(b0 as int),
            body == (if whole.len() > 0 && whole[0] == 0x2b { whole.drop_first() } else { whole }),
            body.len() > 0,
            whole == s@.skip(start as int),
            all_digits(body.take(i - b0)),
            v == digits_value(body.take(i - b0)),
            v <= 255,
        decreases n - i,
    {
        let c = s[i];
        let ghost k = i - b0;
        assert(body.take(k + 1).drop_last() =~= body.take(k));
        assert(body[k] == c);
        if c < 0x30 || c > 0x39 {
            proof {
                assert(!(0x30 <= body[k] <= 0x39));
                assert(!all_digits(body));
                assert(parse_u8(whole) is None);
            }
            return None;
        }
        assert(all_digits(body.take(k + 1)));
        let nv = v * 10 + (c - 0x30) as u16;
        assert(digits_value(body.take(k + 1)) == nv);
        if nv > 255 {
            proof {
                if all_digits(body) {
                    lemma_digits_grow(body, k + 1, body.len() as int);
                    assert(body.take(body.len() as int) =~= body);
                }
                assert(parse_u8(whole) is None);
            }
            return None;
        }
        v = nv;
        i = i + 1;
    }
    assert(body.take(i - b0) =~= body);
    Some(v as u8)
}

/// Decoded sheets by palette, and the frame sets built from them by
/// (palette, hue shift).
pub struct CharSpriteStore {
    sheets: HashMap<u8, DecodedAsset>,
    cache: Vec<(u8, i32, CharacterSpriteSet)>,
}

impl CharSpriteStore {
    /// The stored sheets by palette.
    pub closed spec fn sheets(&self) -> Map<u8, DecodedAsset> {
        self.sheets@
    }

    /// The (palette, hue shift) pairs whose frame set is built.
    pub closed spec fn built(&self) -> Set<(u8, i32)> {
        Set::new(|k: (u8, i32)| exists|i: int| 0 <= i < self.cache@.len() && #[trigger] self.cache@[i].0 == k.0 && self.cache@[i].1 == k.1)
    }

    /// The frame set built for `(palette, hue_shift)`.
    pub closed spec fn built_set(&self, palette: u8, hue_shift: i32) -> CharacterSpriteSet {
        let i = choose|i: int| 0 <= i < self.cache@.len() && #[trigger] self.cache@[i].0 == palette && self.cache@[i].1 == hue_shift;
        self.cache@[i].2
    }

    /// Each pair is built once, from the stored sheet of its palette.
    pub closed spec fn wf(&self) -> bool {
        &&& forall|i: int, j: int| 0 <= i < j < self.cache@.len()
            ==> !(#[trigger] self.cache@[i].0 == #[trigger] self.cache@[j].0 && self.cache@[i].1 == self.cache@[j].1)
        &&& forall|i: int| 0 <= i < self.cache@.len() ==> {
            let (p, h, set) = #[trigger] self.cache@[i];
            &&& self.sheets@.contains_key(p)
            &&& frames_ok(set, self.sheets@[p].rgba@, self.sheets@[p].width as int, h)
        }
    }

    proof fn lemma_entry(&self, i: int)
        requires
            self.wf(),
            0 <= i < self.cache@.len(),
        ensures
            self.built().contains((self.cache@[i].0, self.cache@[i].1)),
            self.built_set(self.cache@[i].0, self.cache@[i].1) == self.cache@[i].2,
    {
        let (p, h) = (self.cache@[i].0, self.cache@[i].1);
        assert(self.cache@[i].0 == p && self.cache@[i].1 == h);
        let j = choose|j: int| 0 <= j < self.cache@.len() && #[trigger] self.cache@[j].0 == p && self.cache@[j].1 == h;
        if j != i {
            if j < i {
                assert(!(self.cache@[j].0 == self.cache@[i].0 && self.cache@[j].1 == self.cache@[i].1));
            } else {
                assert(!(self.cache@[i].0 == self.cache@[j].0 && self.cache@[i].1 == self.cache@[j].1));
            }
        }
    }

    pub fn new() -> (s: Self)
        ensures
            s.wf(),
            s.sheets() == Map::<u8, DecodedAsset>::empty(),
            s.built() == Set::<(u8, i32)>::empty(),
    {
        let s = CharSpriteStore { sheets: HashMap::new(), cache: Vec::new() };
        assert(s.built() =~= Set::<(u8, i32)>::empty());
        s
    }

    /// The asset id the daemon serves a palette's sheet under: `char_<n>`.
    pub fn asset_id(palette: u8) -> (id: String)
        ensures
            id@ == "char_"@ + dec_chars(palette as nat),
    {
        proof {
            reveal_strlit("char_");
        }
        let mut cs: Vec<char> = Vec::new();
        cs.push('c');
        cs.push('h');
        cs.push('a');
        cs.push('r');
        cs.push('_');
        push_dec_chars(&mut cs, palette as u64);
        assert(cs@ =~= "char_"@ + dec_chars(palette as nat));
        string_from_chars(&cs)
    }

    /// The palette a sheet's asset id names (`char_<n>`), if any.
    pub fn palette_of(asset_id: &str) -> (r: Option<u8>)
        ensures
            r == palette_named(asset_id.spec_bytes()),
    {
        let b = asset_id.as_bytes();
        if b.len() < 5 || b[0] != 0x63 || b[1] != 0x68 || b[2] != 0x61 || b[3] != 0x72 || b[4] != 0x5f {
            proof {
                if b@.len() >= 5 && b@.take(5) == sheet_prefix() {
                    assert(b@.take(5)[0] == 0x63 && b@.take(5)[1] == 0x68 && b@.take(5)[2] == 0x61);
                    assert(b@.take(5)[3] == 0x72 && b@.take(5)[4] == 0x5f);
                }
            }
            return None;
        }
        assert(b@.take(5) =~= sheet_prefix());
        parse_palette(b, 5)
    }

    /// Store a sheet for `palette`, dropping the frame sets built from an
    /// earlier sheet of that palette.
    pub fn ingest(&mut self, palette: u8, sheet: DecodedAsset)
        requires
            old(self).wf(),
        ensures
            final(self).wf(),
            final(self).sheets() == old(self).sheets().insert(palette, sheet),
            final(self).built() == old(self).built().filter(|k: (u8, i32)| k.0 != palette),
            forall|k: (u8, i32)| #[trigger] final(self).built().contains(k) ==> final(self).built_set(k.0, k.1)
                == old(self).built_set(k.0, k.1),
    {
        let ghost old_self = *self;
        self.sheets.insert(palette, sheet);
        let mut kept: Vec<(u8, i32, CharacterSpriteSet)> = Vec::new();
        let mut old_cache: Vec<(u8, i32, CharacterSpriteSet)> = Vec::new();
        std::mem::swap(&mut old_cache, &mut self.cache);
        let ghost oc = old_cache@;
        assert(oc == old_self.cache@);
        let mut i: usize = 0;
        let ghost mut map_idx: Seq<int> = Seq::empty();
        assert(oc.skip(0) =~= oc);
        let total = old_cache.len();
        while old_cache.len() > 0
            invariant
                oc == old_self.cache@,
                total == oc.len(),
                i <= oc.len(),
                old_cache@ == oc.skip(i as int),
                map_idx.len() == kept@.len(),
                forall|j: int| 0 <= j < kept@.len() ==> 0 <= #[trigger] map_idx[j] < i && kept@[j] == oc[map_idx[j]]
                    && kept@[j].0 != palette,
                forall|j1: int, j2: int| 0 <= j1 < j2 < kept@.len() ==> #[trigger] map_idx[j1] < #[trigger] map_idx[j2],
                forall|m: int| 0 <= m < i && (#[trigger] oc[m]).0 != palette ==> exists|j: int| 0 <= j < kept@.len() && map_idx[j] == m,
            decreases old_cache@.len(),
        {
            let e = old_cache.remove(0);
            assert(e == oc[i as int]);
            assert(old_cache@ =~= oc.skip(i + 1));
            let ghost old_map = map_idx;
            if e.0 != palette {
                kept.push(e);
                proof {
                    map_idx = map_idx.push(i as int);
                }
            }
            proof {
                assert forall|m: int| 0 <= m < i + 1 && (#[trigger] oc[m]).0 != palette implies exists|j: int| 0 <= j < kept@.len() && map_idx[j] == m by {
                    if m < i {
                        let j = choose|j: int| 0 <= j < old_map.len() && old_map[j] == m;
                        assert(map_idx[j] == m);
                    } else {
                        assert(map_idx[map_idx.len() - 1] == m);
                    }
                }
            }
            i = i + 1;
        }
        self.cache = kept;
        proof {
            assert forall|a: int, b: int| 0 <= a < b < self.cache@.len()
                implies !(#[trigger] self.cache@[a].0 == #[trigger] self.cache@[b].0 && self.cache@[a].1 == self.cache@[b].1) by {
                let ia = map_idx[a];
                let ib = map_idx[b];
                assert(map_idx[a] < map_idx[b]);
                assert(!(oc[ia].0 == oc[ib].0 && oc[ia].1 == oc[ib].1));
            }
            assert forall|a: int| 0 <= a < self.cache@.len() implies {
                let (p, h, set) = #[trigger] self.cache@[a];
                &&& self.sheets@.contains_key(p)
                &&& frames_ok(set, self.sheets@[p].rgba@, self.sheets@[p].width as int, h)
            } by {
                let ia = map_idx[a];
                assert(oc[ia] == self.cache@[a]);
                assert(old_self.sheets@.contains_key(oc[ia].0));
            }
            assert forall|k: (u8, i32)| self.built().contains(k) == old_self.built().filter(|k: (u8, i32)| k.0 != palette).contains(k) by {
                if self.built().contains(k) {
                    let a = choose|a: int| 0 <= a < self.cache@.len() && #[trigger] self.cache@[a].0 == k.0 && self.cache@[a].1 == k.1;
                    let ia = map_idx[a];
                    assert(old_self.cache@[ia].0 == k.0 && old_self.cache@[ia].1 == k.1);
                }
                if old_self.built().filter(|k: (u8, i32)| k.0 != palette).contains(k) {
                    let ib = choose|ib: int| 0 <= ib < old_self.cache@.len() && #[trigger] old_self.cache@[ib].0 == k.0 && old_self.cache@[ib].1 == k.1;
                    assert(oc[ib].0 != palette);
                    let a = choose|a: int| 0 <= a < kept@.len() && map_idx[a] == ib;
                    assert(self.cache@[a].0 == k.0 && self.cache@[a].1 == k.1);
                }
            }
            assert(self.built() =~= old_self.built().filter(|k: (u8, i32)| k.0 != palette));
            assert forall|k: (u8, i32)| #[trigger] self.built().contains(k) implies self.built_set(k.0, k.1) == old_self.built_set(k.0, k.1) by {
                let a = choose|a: int| 0 <= a < self.cache@.len() && #[trigger] self.cache@[a].0 == k.0 && self.cache@[a].1 == k.1;
                let ia = map_idx[a];
                self.lemma_entry(a);
                old_self.lemma_entry(ia);
            }
        }
    }

    fn find(&self, palette: u8, hue_shift: i32) -> (r: Option<usize>)
        ensures
            match r {
                Some(i) => i < self.cache@.len() && self.cache@[i as int].0 == palette && self.cache@[i as int].1 == hue_shift,
                None => forall|i: int| 0 <= i < self.cache@.len() ==> !(self.cache@[i].0 == palette && self.cache@[i].1 == hue_shift),
            },
    {
        let mut i: usize = 0;
        while i < self.cache.len()
            invariant
                i <= self.cache@.len(),
                forall|j: int| 0 <= j < i ==> !(self.cache@[j].0 == palette && self.cache@[j].1 == hue_shift),
            decreases self.cache@.len() - i,
        {
            if self.cache[i].0 == palette && self.cache[i].1 == hue_shift {
                return Some(i);
            }
            i = i + 1;
        }
        None
    }

    /// Build the `(palette, hue_shift)` frame set unless it exists, the
    /// sheet is missing, or the sheet is smaller than a full sheet.
    pub fn ensure<F: Fn(Vec<u8>, i32) -> Vec<u8>>(&mut self, palette: u8, hue_shift: i32, recolor: &F)
        requires
            old(self).wf(),
            forall|v: Vec<u8>| #[trigger] recolor.requires((v, hue_shift)),
            keeps_length(*recolor, hue_shift),
            old(self).sheets().contains_key(palette) && old(self).sheets()[palette].width >= SHEET_W
                && old(self).sheets()[palette].height >= SHEET_H ==> old(self).sheets()[palette].width * 96 <= u32::MAX
                && old(self).sheets()[palette].rgba@.len() >= old(self).sheets()[palette].width * 96 * 4,
        ensures
            final(self).wf(),
            final(self).sheets() == old(self).sheets(),
            forall|k: (u8, i32)| #[trigger] old(self).built().contains(k) ==> final(self).built_set(k.0, k.1)
                == old(self).built_set(k.0, k.1),
            ({
                let fresh = !old(self).built().contains((palette, hue_shift)) && old(self).sheets().contains_key(palette)
                    && old(self).sheets()[palette].width >= SHEET_W && old(self).sheets()[palette].height >= SHEET_H;
                if fresh {
                    &&& final(self).built() == old(self).built().insert((palette, hue_shift))
                    &&& built_from(final(self).built_set(palette, hue_shift), old(self).sheets()[palette].rgba@,
                        old(self).sheets()[palette].width as int, hue_shift, *recolor)
                } else {
                    final(self).built() == old(self).built()
                }
            }),
    {
        let ghost old_self = *self;
        match self.find(palette, hue_shift) {
            Some(i) => {
                proof {
                    self.lemma_entry(i as int);
                }
                return;
            },
            None => {},
        }
        assert(!self.built().contains((palette, hue_shift)));
        let set = match self.sheets.get(&palette) {
            Some(sheet) => {
                if sheet.width < SHEET_W || sheet.height < SHEET_H {
                    return;
                }
                build_set(sheet, hue_shift, recolor)
            },
            None => {
                return;
            },
        };
        let ghost sheet = self.sheets@[palette];
        self.cache.push((palette, hue_shift, set));
        proof {
            let last = self.cache@.len() - 1;
            assert forall|a: int, b: int| 0 <= a < b < self.cache@.len()
                implies !(#[trigger] self.cache@[a].0 == #[trigger] self.cache@[b].0 && self.cache@[a].1 == self.cache@[b].1) by {
                if b < last {
                    assert(!(old_self.cache@[a].0 == old_self.cache@[b].0 && old_self.cache@[a].1 == old_self.cache@[b].1));
                }
            }
            assert forall|a: int| 0 <= a < self.cache@.len() implies {
                let (p, h, s) = #[trigger] self.cache@[a];
                &&& self.sheets@.contains_key(p)
                &&& frames_ok(s, self.sheets@[p].rgba@, self.sheets@[p].width as int, h)
            } by {
                if a < last {
                    assert(old_self.cache@[a] == self.cache@[a]);
                }
            }
            assert forall|k: (u8, i32)| self.built().contains(k) == old_self.built().insert((palette, hue_shift)).contains(k) by {
                if self.built().contains(k) && k != (palette, hue_shift) {
                    let a = choose|a: int| 0 <= a < self.cache@.len() && #[trigger] self.cache@[a].0 == k.0 && self.cache@[a].1 == k.1;
                    assert(old_self.cache@[a].0 == k.0 && old_self.cache@[a].1 == k.1);
                }
                if old_self.built().contains(k) {
                    let a = choose|a: int| 0 <= a < old_self.cache@.len() && #[trigger] old_self.cache@[a].0 == k.0 && old_self.cache@[a].1 == k.1;
                    assert(self.cache@[a].0 == k.0 && self.cache@[a].1 == k.1);
                }
                if k == (palette, hue_shift) {
                    assert(self.cache@[last].0 == k.0 && self.cache@[last].1 == k.1);
                }
            }
            assert(self.built() =~= old_self.built().insert((palette, hue_shift)));
            self.lemma_entry(last);
            assert forall|k: (u8, i32)| #[trigger] old_self.built().contains(k) implies self.built_set(k.0, k.1) == old_self.built_set(k.0, k.1) by {
                let a = choose|a: int| 0 <= a < old_self.cache@.len() && #[trigger] old_self.cache@[a].0 == k.0 && old_self.cache@[a].1 == k.1;
                old_self.lemma_entry(a);
                assert(self.cache@[a] == old_self.cache@[a]);
                self.lemma_entry(a);
            }
        }
    }

    /// The frame set built for `(palette, hue_shift)`, if any.
    pub fn get(&self, palette: u8, hue_shift: i32) -> (r: Option<&CharacterSpriteSet>)
        requires
            self.wf(),
        ensures
            match r {
                Some(s) => self.built().contains((palette, hue_shift)) && *s == self.built_set(palette, hue_shift)
                    && self.sheets().contains_key(palette)
                    && frames_ok(*s, self.sheets()[palette].rgba@, self.sheets()[palette].width as int, hue_shift),
                None => !self.built().contains((palette, hue_shift)),
            },
    {
        match self.find(palette, hue_shift) {
            Some(i) => {
                proof {
                    self.lemma_entry(i as int);
                }
                Some(&self.cache[i].2)
            },
            None => None,
        }
    }

    /// Whether a sheet is stored for `palette`.
    pub fn has_sheet(&self, palette: u8) -> (r: bool)
        ensures
            r == self.sheets().contains_key(palette),
    {
        self.sheets.contains_key(&palette)
    }
}

impl Default for CharSpriteStore {
    fn default() -> (s: Self)
        ensures
            s.wf(),
            s.sheets() == Map::<u8, DecodedAsset>::empty(),
            s.built() == Set::<(u8, i32)>::empty(),
    {
        CharSpriteStore::new()
    }
}

} // verus!
