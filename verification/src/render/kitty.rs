//! Kitty graphics protocol encoder for the unicode-placeholder tier: image
//! upload, virtual placement, the placeholder cell grid, and the mapping of a
//! sprite's device pixels onto the cell grid.

use std::collections::HashSet;

use vstd::prelude::*;
use vstd::utf8::encode_utf8;

use crate::assets::{djb2, string_asset_id, AssetStore, DecodedAsset};

use crate::render::b64::{b64, encode};
use crate::text::{append_range, ascii, dec_chars, decimal, push_ascii, push_dec_chars, push_decimal, string_from_chars};

verus! {

broadcast use vstd::std_specs::hash::group_hash_axioms;

/// The Unicode "image placeholder" character of the Kitty protocol.
pub const PLACEHOLDER: char = '\u{10EEEE}';

/// Largest base64 payload carried by one transmit command.
pub const CHUNK_BASE64_LEN: usize = 4096;

/// Row/column diacritics (combining marks of class 230): the `n`-th entry
/// encodes the value `n` of a row or column coordinate.
pub open spec fn diacritic_marks() -> Seq<char> {
    seq![
        '\u{0305}', '\u{030D}', '\u{030E}', '\u{0310}', '\u{0312}', '\u{033D}', '\u{033E}', '\u{033F}',
        '\u{0346}', '\u{034A}', '\u{034B}', '\u{034C}', '\u{0350}', '\u{0351}', '\u{0352}', '\u{0357}',
        '\u{035B}', '\u{0363}', '\u{0364}', '\u{0365}', '\u{0366}', '\u{0367}', '\u{0368}', '\u{0369}',
        '\u{036A}', '\u{036B}', '\u{036C}', '\u{036D}', '\u{036E}', '\u{036F}', '\u{0483}', '\u{0484}',
        '\u{0485}', '\u{0486}', '\u{0487}', '\u{0592}', '\u{0593}', '\u{0594}', '\u{0595}', '\u{0597}',
        '\u{0598}', '\u{0599}', '\u{059C}', '\u{059D}', '\u{059E}', '\u{059F}', '\u{05A0}', '\u{05A1}',
        '\u{05A8}', '\u{05A9}', '\u{05AB}', '\u{05AC}', '\u{05AF}', '\u{05C4}', '\u{0610}', '\u{0611}',
        '\u{0612}', '\u{0613}', '\u{0614}', '\u{0615}', '\u{0616}', '\u{0617}', '\u{0657}', '\u{0658}',
        '\u{0659}', '\u{065A}', '\u{065B}', '\u{065D}', '\u{065E}', '\u{06D6}', '\u{06D7}', '\u{06D8}',
        '\u{06D9}', '\u{06DA}', '\u{06DB}', '\u{06DC}', '\u{06DF}', '\u{06E0}', '\u{06E1}', '\u{06E2}',
        '\u{06E4}', '\u{06E7}', '\u{06E8}', '\u{06EB}', '\u{06EC}', '\u{0730}', '\u{0732}', '\u{0733}',
        '\u{0735}', '\u{0736}', '\u{073A}', '\u{073D}', '\u{073F}', '\u{0740}', '\u{0741}', '\u{0743}',
        '\u{0745}', '\u{0747}', '\u{0749}', '\u{074A}', '\u{07EB}', '\u{07EC}', '\u{07ED}', '\u{07EE}',
        '\u{07EF}', '\u{07F0}', '\u{07F1}', '\u{07F3}', '\u{0816}', '\u{0817}', '\u{0818}', '\u{0819}',
        '\u{081B}', '\u{081C}', '\u{081D}', '\u{081E}', '\u{081F}', '\u{0820}', '\u{0821}', '\u{0822}',
        '\u{0823}', '\u{0825}', '\u{0826}', '\u{0827}', '\u{0829}', '\u{082A}', '\u{082B}', '\u{082C}',
        '\u{082D}', '\u{0951}', '\u{0953}', '\u{0954}', '\u{0F82}', '\u{0F83}', '\u{0F86}', '\u{0F87}',
        '\u{135D}', '\u{135E}', '\u{135F}', '\u{17DD}', '\u{193A}', '\u{1A17}', '\u{1A75}', '\u{1A76}',
        '\u{1A77}', '\u{1A78}', '\u{1A79}', '\u{1A7A}', '\u{1A7B}', '\u{1A7C}', '\u{1B6B}', '\u{1B6D}',
        '\u{1B6E}', '\u{1B6F}', '\u{1B70}', '\u{1B71}', '\u{1B72}', '\u{1B73}', '\u{1CD0}', '\u{1CD1}',
        '\u{1CD2}', '\u{1CDA}', '\u{1CDB}', '\u{1CE0}', '\u{1DC0}', '\u{1DC1}', '\u{1DC3}', '\u{1DC4}',
        '\u{1DC5}', '\u{1DC6}', '\u{1DC7}', '\u{1DC8}', '\u{1DC9}', '\u{1DCB}', '\u{1DCC}', '\u{1DD1}',
        '\u{1DD2}', '\u{1DD3}', '\u{1DD4}', '\u{1DD5}', '\u{1DD6}', '\u{1DD7}', '\u{1DD8}', '\u{1DD9}',
        '\u{1DDA}', '\u{1DDB}', '\u{1DDC}', '\u{1DDD}', '\u{1DDE}', '\u{1DDF}', '\u{1DE0}', '\u{1DE1}',
        '\u{1DE2}', '\u{1DE3}', '\u{1DE4}', '\u{1DE5}', '\u{1DE6}', '\u{1DFE}', '\u{20D0}', '\u{20D1}',
        '\u{20D4}', '\u{20D5}', '\u{20D6}', '\u{20D7}', '\u{20DB}', '\u{20DC}', '\u{20E1}', '\u{20E7}',
        '\u{20E9}', '\u{20F0}', '\u{2CEF}', '\u{2CF0}', '\u{2CF1}', '\u{2DE0}', '\u{2DE1}', '\u{2DE2}',
        '\u{2DE3}', '\u{2DE4}', '\u{2DE5}', '\u{2DE6}', '\u{2DE7}', '\u{2DE8}', '\u{2DE9}', '\u{2DEA}',
        '\u{2DEB}', '\u{2DEC}', '\u{2DED}', '\u{2DEE}', '\u{2DEF}', '\u{2DF0}', '\u{2DF1}', '\u{2DF2}',
        '\u{2DF3}', '\u{2DF4}', '\u{2DF5}', '\u{2DF6}', '\u{2DF7}', '\u{2DF8}', '\u{2DF9}', '\u{2DFA}',
        '\u{2DFB}', '\u{2DFC}', '\u{2DFD}', '\u{2DFE}', '\u{2DFF}', '\u{A66F}', '\u{A67C}', '\u{A67D}',
        '\u{A6F0}', '\u{A6F1}', '\u{A8E0}', '\u{A8E1}', '\u{A8E2}', '\u{A8E3}', '\u{A8E4}', '\u{A8E5}',
        '\u{A8E6}', '\u{A8E7}', '\u{A8E8}', '\u{A8E9}', '\u{A8EA}', '\u{A8EB}', '\u{A8EC}', '\u{A8ED}',
        '\u{A8EE}', '\u{A8EF}', '\u{A8F0}', '\u{A8F1}', '\u{AAB0}', '\u{AAB2}', '\u{AAB3}', '\u{AAB7}',
        '\u{AAB8}', '\u{AABE}', '\u{AABF}', '\u{AAC1}', '\u{FE20}', '\u{FE21}', '\u{FE22}', '\u{FE23}',
        '\u{FE24}', '\u{FE25}', '\u{FE26}', '\u{10A0F}', '\u{10A38}', '\u{1D185}', '\u{1D186}', '\u{1D187}',
        '\u{1D188}', '\u{1D189}', '\u{1D1AA}', '\u{1D1AB}', '\u{1D1AC}', '\u{1D1AD}', '\u{1D242}', '\u{1D243}',
        '\u{1D244}',
    ]
}

/// The diacritics table.
pub fn diacritics() -> (t: Vec<char>)
    ensures
        t@ == diacritic_marks(),
{
    let t = vec![
        '\u{0305}', '\u{030D}', '\u{030E}', '\u{0310}', '\u{0312}', '\u{033D}', '\u{033E}', '\u{033F}',
        '\u{0346}', '\u{034A}', '\u{034B}', '\u{034C}', '\u{0350}', '\u{0351}', '\u{0352}', '\u{0357}',
        '\u{035B}', '\u{0363}', '\u{0364}', '\u{0365}', '\u{0366}', '\u{0367}', '\u{0368}', '\u{0369}',
        '\u{036A}', '\u{036B}', '\u{036C}', '\u{036D}', '\u{036E}', '\u{036F}', '\u{0483}', '\u{0484}',
        '\u{0485}', '\u{0486}', '\u{0487}', '\u{0592}', '\u{0593}', '\u{0594}', '\u{0595}', '\u{0597}',
        '\u{0598}', '\u{0599}', '\u{059C}', '\u{059D}', '\u{059E}', '\u{059F}', '\u{05A0}', '\u{05A1}',
        '\u{05A8}', '\u{05A9}', '\u{05AB}', '\u{05AC}', '\u{05AF}', '\u{05C4}', '\u{0610}', '\u{0611}',
        '\u{0612}', '\u{0613}', '\u{0614}', '\u{0615}', '\u{0616}', '\u{0617}', '\u{0657}', '\u{0658}',
        '\u{0659}', '\u{065A}', '\u{065B}', '\u{065D}', '\u{065E}', '\u{06D6}', '\u{06D7}', '\u{06D8}',
        '\u{06D9}', '\u{06DA}', '\u{06DB}', '\u{06DC}', '\u{06DF}', '\u{06E0}', '\u{06E1}', '\u{06E2}',
        '\u{06E4}', '\u{06E7}', '\u{06E8}', '\u{06EB}', '\u{06EC}', '\u{0730}', '\u{0732}', '\u{0733}',
        '\u{0735}', '\u{0736}', '\u{073A}', '\u{073D}', '\u{073F}', '\u{0740}', '\u{0741}', '\u{0743}',
        '\u{0745}', '\u{0747}', '\u{0749}', '\u{074A}', '\u{07EB}', '\u{07EC}', '\u{07ED}', '\u{07EE}',
        '\u{07EF}', '\u{07F0}', '\u{07F1}', '\u{07F3}', '\u{0816}', '\u{0817}', '\u{0818}', '\u{0819}',
        '\u{081B}', '\u{081C}', '\u{081D}', '\u{081E}', '\u{081F}', '\u{0820}', '\u{0821}', '\u{0822}',
        '\u{0823}', '\u{0825}', '\u{0826}', '\u{0827}', '\u{0829}', '\u{082A}', '\u{082B}', '\u{082C}',
        '\u{082D}', '\u{0951}', '\u{0953}', '\u{0954}', '\u{0F82}', '\u{0F83}', '\u{0F86}', '\u{0F87}',
        '\u{135D}', '\u{135E}', '\u{135F}', '\u{17DD}', '\u{193A}', '\u{1A17}', '\u{1A75}', '\u{1A76}',
        '\u{1A77}', '\u{1A78}', '\u{1A79}', '\u{1A7A}', '\u{1A7B}', '\u{1A7C}', '\u{1B6B}', '\u{1B6D}',
        '\u{1B6E}', '\u{1B6F}', '\u{1B70}', '\u{1B71}', '\u{1B72}', '\u{1B73}', '\u{1CD0}', '\u{1CD1}',
        '\u{1CD2}', '\u{1CDA}', '\u{1CDB}', '\u{1CE0}', '\u{1DC0}', '\u{1DC1}', '\u{1DC3}', '\u{1DC4}',
        '\u{1DC5}', '\u{1DC6}', '\u{1DC7}', '\u{1DC8}', '\u{1DC9}', '\u{1DCB}', '\u{1DCC}', '\u{1DD1}',
        '\u{1DD2}', '\u{1DD3}', '\u{1DD4}', '\u{1DD5}', '\u{1DD6}', '\u{1DD7}', '\u{1DD8}', '\u{1DD9}',
        '\u{1DDA}', '\u{1DDB}', '\u{1DDC}', '\u{1DDD}', '\u{1DDE}', '\u{1DDF}', '\u{1DE0}', '\u{1DE1}',
        '\u{1DE2}', '\u{1DE3}', '\u{1DE4}', '\u{1DE5}', '\u{1DE6}', '\u{1DFE}', '\u{20D0}', '\u{20D1}',
        '\u{20D4}', '\u{20D5}', '\u{20D6}', '\u{20D7}', '\u{20DB}', '\u{20DC}', '\u{20E1}', '\u{20E7}',
        '\u{20E9}', '\u{20F0}', '\u{2CEF}', '\u{2CF0}', '\u{2CF1}', '\u{2DE0}', '\u{2DE1}', '\u{2DE2}',
        '\u{2DE3}', '\u{2DE4}', '\u{2DE5}', '\u{2DE6}', '\u{2DE7}', '\u{2DE8}', '\u{2DE9}', '\u{2DEA}',
        '\u{2DEB}', '\u{2DEC}', '\u{2DED}', '\u{2DEE}', '\u{2DEF}', '\u{2DF0}', '\u{2DF1}', '\u{2DF2}',
        '\u{2DF3}', '\u{2DF4}', '\u{2DF5}', '\u{2DF6}', '\u{2DF7}', '\u{2DF8}', '\u{2DF9}', '\u{2DFA}',
        '\u{2DFB}', '\u{2DFC}', '\u{2DFD}', '\u{2DFE}', '\u{2DFF}', '\u{A66F}', '\u{A67C}', '\u{A67D}',
        '\u{A6F0}', '\u{A6F1}', '\u{A8E0}', '\u{A8E1}', '\u{A8E2}', '\u{A8E3}', '\u{A8E4}', '\u{A8E5}',
        '\u{A8E6}', '\u{A8E7}', '\u{A8E8}', '\u{A8E9}', '\u{A8EA}', '\u{A8EB}', '\u{A8EC}', '\u{A8ED}',
        '\u{A8EE}', '\u{A8EF}', '\u{A8F0}', '\u{A8F1}', '\u{AAB0}', '\u{AAB2}', '\u{AAB3}', '\u{AAB7}',
        '\u{AAB8}', '\u{AABE}', '\u{AABF}', '\u{AAC1}', '\u{FE20}', '\u{FE21}', '\u{FE22}', '\u{FE23}',
        '\u{FE24}', '\u{FE25}', '\u{FE26}', '\u{10A0F}', '\u{10A38}', '\u{1D185}', '\u{1D186}', '\u{1D187}',
        '\u{1D188}', '\u{1D189}', '\u{1D1AA}', '\u{1D1AB}', '\u{1D1AC}', '\u{1D1AD}', '\u{1D242}', '\u{1D243}',
        '\u{1D244}',
    ];
    assert(t@ =~= diacritic_marks());
    t
}

/// The diacritic for coordinate `n`, the last entry for `n` past the table.
pub open spec fn diacritic_at(n: int) -> char {
    if n < 297 {
        diacritic_marks()[n]
    } else {
        diacritic_marks()[296]
    }
}

fn diacritic(table: &Vec<char>, n: usize) -> (c: char)
    requires
        table@ == diacritic_marks(),
    ensures
        c == diacritic_at(n as int),
{
    assert(diacritic_marks().len() == 297);
    if n < 297 {
        table[n]
    } else {
        table[296]
    }
}

/// Standard padded base64 of `data`.
pub fn base64_encode(data: &[u8]) -> (out: Vec<u8>)
    ensures
        out@ == b64(data@),
{
    encode(data)
}

/// The control keys of the first transmit command.
pub open spec fn transmit_keys(image_id: u32, width: u32, height: u32) -> Seq<u8> {
    ascii("a=t,f=32,s="@) + decimal(width as nat) + ascii(",v="@) + decimal(height as nat)
        + ascii(",i="@) + decimal(image_id as nat) + ascii(","@)
}

/// The transmit commands carrying `payload`, at most `CHUNK_BASE64_LEN` bytes
/// each; `keys` ride on the first command only, `m=1` marks a command that
/// more follow, `m=0` the last one.
pub open spec fn transmit_frames(payload: Seq<u8>, keys: Seq<u8>) -> Seq<u8>
    decreases payload.len(),
{
    let head = ascii("\x1b_G"@) + keys;
    if payload.len() <= 4096 {
        head + ascii("m=0;"@) + payload + ascii("\x1b\\"@)
    } else {
        head + ascii("m=1;"@) + payload.take(4096) + ascii("\x1b\\"@) + transmit_frames(
            payload.skip(4096),
            Seq::empty(),
        )
    }
}

/// The commands uploading `rgba` (32-bit pixels, `width × height`) under
/// image id `image_id`.
pub fn encode_transmit(image_id: u32, width: u32, height: u32, rgba: &[u8]) -> (out: Vec<u8>)
    ensures
        out@ == transmit_frames(b64(rgba@), transmit_keys(image_id, width, height)),
{
    let payload = encode(rgba);
    let n = payload.len();
    let mut keys: Vec<u8> = Vec::new();
    proof {
        reveal_strlit("a=t,f=32,s=");
        reveal_strlit(",v=");
        reveal_strlit(",i=");
        reveal_strlit(",");
        reveal_strlit("\x1b_G");
        reveal_strlit("m=0;");
        reveal_strlit("m=1;");
        reveal_strlit("\x1b\\");
    }
    push_ascii(&mut keys, "a=t,f=32,s=");
    push_decimal(&mut keys, width as u64);
    push_ascii(&mut keys, ",v=");
    push_decimal(&mut keys, height as u64);
    push_ascii(&mut keys, ",i=");
    push_decimal(&mut keys, image_id as u64);
    push_ascii(&mut keys, ",");
    assert(keys@ =~= transmit_keys(image_id, width, height));
    let ghost all = transmit_frames(payload@, keys@);
    let mut out: Vec<u8> = Vec::new();
    let mut pos: usize = 0;
    assert(payload@.skip(0) =~= payload@);
    loop
        invariant
            n == payload@.len(),
            all == transmit_frames(b64(rgba@), transmit_keys(image_id, width, height)),
            pos <= n,
            pos == 0 || pos < n,
            out@ + transmit_frames(payload@.skip(pos as int), if pos == 0 { keys@ } else { Seq::empty() }) == all,
        decreases n - pos,
    {
        let ghost rest = payload@.skip(pos as int);
        let ghost k = if pos == 0 { keys@ } else { Seq::<u8>::empty() };
        let ghost before = out@;
        proof {
            reveal_strlit("\x1b_G");
            reveal_strlit("m=0;");
            reveal_strlit("m=1;");
            reveal_strlit("\x1b\\");
        }
        push_ascii(&mut out, "\x1b_G");
        if pos == 0 {
            append_range(&mut out, keys.as_slice(), 0, keys.len());
            assert(keys@.subrange(0, keys@.len() as int) =~= keys@);
        } else {
            assert(out@ =~= out@ + k);
        }
        if n - pos <= CHUNK_BASE64_LEN {
            push_ascii(&mut out, "m=0;");
            append_range(&mut out, payload.as_slice(), pos, n);
            push_ascii(&mut out, "\x1b\\");
            assert(payload@.subrange(pos as int, n as int) =~= rest);
            assert(out@ =~= before + transmit_frames(rest, k));
            return out;
        }
        push_ascii(&mut out, "m=1;");
        append_range(&mut out, payload.as_slice(), pos, pos + CHUNK_BASE64_LEN);
        push_ascii(&mut out, "\x1b\\");
        assert(payload@.subrange(pos as int, pos + 4096) =~= rest.take(4096));
        assert(rest.skip(4096) =~= payload@.skip(pos + 4096));
        assert(out@ + transmit_frames(rest.skip(4096), Seq::empty()) =~= before + transmit_frames(rest, k));
        pos = pos + CHUNK_BASE64_LEN;
    }
}

/// The virtual-placement command for an uploaded image: a `cols × rows`
/// grid, with pixel offsets into the first cell given only when positive.
pub open spec fn virtual_placement(image_id: u32, placement_id: u32, cols: u16, rows: u16, x_off: u16, y_off: u16) -> Seq<u8> {
    ascii("\x1b_Ga=p,U=1,i="@) + decimal(image_id as nat) + ascii(",p="@) + decimal(placement_id as nat)
        + ascii(",c="@) + decimal(cols as nat) + ascii(",r="@) + decimal(rows as nat)
        + (if x_off > 0 { ascii(",X="@) + decimal(x_off as nat) } else { Seq::empty() })
        + (if y_off > 0 { ascii(",Y="@) + decimal(y_off as nat) } else { Seq::empty() })
        + ascii(";\x1b\\"@)
}

/// Build the virtual-placement command (`a=p,U=1`) that placeholder cells
/// bind to.
pub fn encode_virtual_placement(image_id: u32, placement_id: u32, cols: u16, rows: u16, x_off: u16, y_off: u16) -> (out: Vec<u8>)
    ensures
        out@ == virtual_placement(image_id, placement_id, cols, rows, x_off, y_off),
{
    proof {
        reveal_strlit("\x1b_Ga=p,U=1,i=");
        reveal_strlit(",p=");
        reveal_strlit(",c=");
        reveal_strlit(",r=");
        reveal_strlit(",X=");
        reveal_strlit(",Y=");
        reveal_strlit(";\x1b\\");
    }
    let mut out: Vec<u8> = Vec::new();
    push_ascii(&mut out, "\x1b_Ga=p,U=1,i=");
    push_decimal(&mut out, image_id as u64);
    push_ascii(&mut out, ",p=");
    push_decimal(&mut out, placement_id as u64);
    push_ascii(&mut out, ",c=");
    push_decimal(&mut out, cols as u64);
    push_ascii(&mut out, ",r=");
    push_decimal(&mut out, rows as u64);
    let ghost base = out@;
    if x_off > 0 {
        push_ascii(&mut out, ",X=");
        push_decimal(&mut out, x_off as u64);
    }
    let ghost with_x = out@;
    if y_off > 0 {
        push_ascii(&mut out, ",Y=");
        push_decimal(&mut out, y_off as u64);
    }
    let ghost with_y = out@;
    push_ascii(&mut out, ";\x1b\\");
    proof {
        let xs = if x_off > 0 { ascii(",X="@) + decimal(x_off as nat) } else { Seq::empty() };
        let ys = if y_off > 0 { ascii(",Y="@) + decimal(y_off as nat) } else { Seq::empty() };
        assert(with_x =~= base + xs);
        assert(with_y =~= base + xs + ys);
    }
    assert(out@ =~= virtual_placement(image_id, placement_id, cols, rows, x_off, y_off));
    out
}

/// Where a sprite lands on the cell grid: the top-left cell, the placement
/// size in cells, and the pixel offset into that first cell.
#[derive(Debug, Clone, Copy, PartialEq, Eq, Structural)]
pub struct Placement {
    pub cell_col: u16,
    pub cell_row: u16,
    pub cols: u16,
    pub rows: u16,
    pub x_off: u16,
    pub y_off: u16,
}

/// `a / b` rounded up.
pub open spec fn ceil_div(a: int, b: int) -> int {
    a / b + if a % b == 0 { 0int } else { 1int }
}

/// A cell dimension, zero read as one.
pub open spec fn cell_dim(c: u16) -> int {
    if c == 0 { 1 } else { c as int }
}

/// The placement of a `dev_w × dev_h` sprite at device pixel
/// `(dev_x, dev_y)` on a grid of `cell_w × cell_h` cells: the cell index and
/// the offset within it come from dividing by the cell size; the size in
/// cells covers the sprite shifted by that offset, and is at least one.
/// Values that do not fit in 16 bits are truncated.
pub open spec fn placement_of(cell_w: u16, cell_h: u16, dev_x: u32, dev_y: u32, dev_w: u32, dev_h: u32) -> Placement {
    let cw = cell_dim(cell_w);
    let ch = cell_dim(cell_h);
    let x_off = (dev_x as int) % cw;
    let y_off = (dev_y as int) % ch;
    let cols = ceil_div(x_off + dev_w, cw);
    let rows = ceil_div(y_off + dev_h, ch);
    Placement {
        cell_col: ((dev_x as int) / cw) as u16,
        cell_row: ((dev_y as int) / ch) as u16,
        cols: (if cols < 1 { 1 } else { cols }) as u16,
        rows: (if rows < 1 { 1 } else { rows }) as u16,
        x_off: x_off as u16,
        y_off: y_off as u16,
    }
}

/// Map a sprite in device pixels onto the cell grid.
pub fn compute_placement(cell_w: u16, cell_h: u16, dev_x: u32, dev_y: u32, dev_w: u32, dev_h: u32) -> (p: Placement)
    requires
        (dev_x as int) % cell_dim(cell_w) + dev_w <= u32::MAX,
        (dev_y as int) % cell_dim(cell_h) + dev_h <= u32::MAX,
    ensures
        p == placement_of(cell_w, cell_h, dev_x, dev_y, dev_w, dev_h),
{
    let cw: u32 = if cell_w == 0 { 1 } else { cell_w as u32 };
    let ch: u32 = if cell_h == 0 { 1 } else { cell_h as u32 };
    let x_off = dev_x % cw;
    let y_off = dev_y % ch;
    let xs = (x_off + dev_w) as u64;
    let ys = (y_off + dev_h) as u64;
    let cols: u64 = xs / (cw as u64) + if xs % (cw as u64) == 0 { 0 } else { 1 };
    let rows: u64 = ys / (ch as u64) + if ys % (ch as u64) == 0 { 0 } else { 1 };
    Placement {
        cell_col: #[verifier::truncate] ((dev_x / cw) as u16),
        cell_row: #[verifier::truncate] ((dev_y / ch) as u16),
        cols: #[verifier::truncate] ((if cols < 1 { 1 } else { cols }) as u16),
        rows: #[verifier::truncate] ((if rows < 1 { 1 } else { rows }) as u16),
        x_off: x_off as u16,
        y_off: y_off as u16,
    }
}

/// The SGR setting the foreground to the image id's low 24 bits, big-endian:
/// red from bits 16–23, green from bits 8–15, blue from bits 0–7.
pub open spec fn fg_sgr(image_id: u32) -> Seq<char> {
    "\x1b[38;2;"@ + dec_chars(((image_id as int) / 65536 % 256) as nat) + ";"@
        + dec_chars(((image_id as int) / 256 % 256) as nat) + ";"@
        + dec_chars(((image_id as int) % 256) as nat) + "m"@
}

/// The placeholder colour carries the image id: it is `ESC [ 38 ; 2 ; r ;
/// g ; b m` with bytes `r`, `g`, `b` that make up the id's low 24 bits as
/// `r·65536 + g·256 + b`.
pub proof fn lemma_fg_carries_id(image_id: u32)
    ensures
        exists|r: nat, g: nat, b: nat|
            r < 256 && g < 256 && b < 256 && r * 65536 + g * 256 + b == image_id as int % 16777216 && fg_sgr(image_id) == "\x1b[38;2;"@
                + dec_chars(r) + ";"@ + dec_chars(g) + ";"@ + dec_chars(b) + "m"@,
{
    let r = ((image_id as int) / 65536 % 256) as nat;
    let g = ((image_id as int) / 256 % 256) as nat;
    let b = ((image_id as int) % 256) as nat;
    assert((image_id / 65536 % 256) * 65536 + (image_id / 256 % 256) * 256 + image_id % 256 == image_id % 16777216)
        by (bit_vector);
    assert(r * 65536 + g * 256 + b == image_id as int % 16777216);
    assert(r < 256 && g < 256 && b < 256 && r * 65536 + g * 256 + b == image_id as int % 16777216 && fg_sgr(image_id)
        == "\x1b[38;2;"@ + dec_chars(r) + ";"@ + dec_chars(g) + ";"@ + dec_chars(b) + "m"@);
}

/// One placeholder cell: the placeholder, the row and column diacritics, and
/// on a row's first cell a third diacritic carrying the id's high byte.
pub open spec fn placeholder_cell(row: int, col: int, high: int) -> Seq<char> {
    seq![PLACEHOLDER, diacritic_at(row), diacritic_at(col)] + if col == 0 {
        seq![diacritic_at(high)]
    } else {
        Seq::empty()
    }
}

/// The first `n` cells of placeholder row `row`.
pub open spec fn placeholder_cells(row: int, n: nat, high: int) -> Seq<char>
    decreases n,
{
    if n == 0 {
        Seq::empty()
    } else {
        placeholder_cells(row, (n - 1) as nat, high) + placeholder_cell(row, n - 1, high)
    }
}

/// Row `row` of a `cols × rows` placeholder block: the colour, the cells, an
/// SGR reset, and a newline unless it is the last row.
pub open spec fn placeholder_row(image_id: u32, row: int, cols: nat, rows: nat) -> Seq<char> {
    fg_sgr(image_id) + placeholder_cells(row, cols, (image_id as int) / 16777216) + "\x1b[0m"@
        + if row + 1 < rows { "\n"@ } else { Seq::empty() }
}

/// The first `n` rows of a `cols × rows` placeholder block.
pub open spec fn placeholder_rows(image_id: u32, cols: nat, n: nat, rows: nat) -> Seq<char>
    decreases n,
{
    if n == 0 {
        Seq::empty()
    } else {
        placeholder_rows(image_id, cols, (n - 1) as nat, rows) + placeholder_row(image_id, n - 1, cols, rows)
    }
}

fn push_fg_sgr(out: &mut Vec<char>, image_id: u32)
    ensures
        final(out)@ == old(out)@ + fg_sgr(image_id),
{
    proof {
        reveal_strlit("\x1b[38;2;");
        reveal_strlit(";");
        reveal_strlit("m");
    }
    let r = (image_id / 65536) % 256;
    let g = (image_id / 256) % 256;
    let b = image_id % 256;
    out.push('\x1b');
    out.push('[');
    out.push('3');
    out.push('8');
    out.push(';');
    out.push('2');
    out.push(';');
    assert(out@ =~= old(out)@ + "\x1b[38;2;"@);
    push_dec_chars(out, r as u64);
    out.push(';');
    push_dec_chars(out, g as u64);
    out.push(';');
    push_dec_chars(out, b as u64);
    out.push('m');
    assert(out@ =~= old(out)@ + fg_sgr(image_id));
}

/// The `cols × rows` block of placeholder cells that displays `image_id`,
/// rows separated by newlines.
pub fn placeholder_text(image_id: u32, cols: u16, rows: u16) -> (s: String)
    ensures
        s@ == placeholder_rows(image_id, cols as nat, rows as nat, rows as nat),
{
    let table = diacritics();
    let high = (image_id / 16777216) as usize;
    let mut out: Vec<char> = Vec::new();
    let mut row: usize = 0;
    while row < rows as usize
        invariant
            row <= rows,
            table@ == diacritic_marks(),
            high == (image_id as int) / 16777216,
            out@ == placeholder_rows(image_id, cols as nat, row as nat, rows as nat),
        decreases rows - row,
    {
        let ghost before = out@;
        push_fg_sgr(&mut out, image_id);
        let ghost after_sgr = out@;
        let mut col: usize = 0;
        while col < cols as usize
            invariant
                col <= cols,
                row < rows,
                table@ == diacritic_marks(),
                high == (image_id as int) / 16777216,
                out@ == after_sgr + placeholder_cells(row as int, col as nat, high as int),
            decreases cols - col,
        {
            let ghost b = out@;
            out.push(PLACEHOLDER);
            out.push(diacritic(&table, row));
            out.push(diacritic(&table, col));
            if col == 0 {
                out.push(diacritic(&table, high));
            }
            assert(out@ =~= b + placeholder_cell(row as int, col as int, high as int));
            col = col + 1;
            assert(out@ =~= after_sgr + placeholder_cells(row as int, col as nat, high as int));
        }
        proof {
            reveal_strlit("\x1b[0m");
            reveal_strlit("\n");
        }
        out.push('\x1b');
        out.push('[');
        out.push('0');
        out.push('m');
        if row + 1 < rows as usize {
            out.push('\n');
        }
        row = row + 1;
        assert(out@ =~= before + placeholder_row(image_id, row - 1, cols as nat, rows as nat));
    }
    string_from_chars(&out)
}

/// The Kitty image id of an asset: the djb2 hash of its name's bytes, the
/// same number the daemon tags the asset's frames with.
pub open spec fn image_id_of(name: Seq<char>) -> u32 {
    djb2(encode_utf8(name))
}

/// The transmit commands that upload a decoded sprite under `id`.
pub open spec fn sprite_upload(id: u32, sprite: DecodedAsset) -> Seq<u8> {
    transmit_frames(b64(sprite.rgba@), transmit_keys(id, sprite.width, sprite.height))
}

/// Walking the first `n` entries with the ids in `sent` already uploaded:
/// the bytes emitted (an upload for each entry whose id was not yet sent)
/// and the ids sent afterwards.
pub open spec fn uploads(entries: Seq<(String, DecodedAsset)>, n: nat, sent: Set<u32>) -> (Seq<u8>, Set<u32>)
    decreases n,
{
    if n == 0 {
        (Seq::empty(), sent)
    } else {
        let (bytes, ids) = uploads(entries, (n - 1) as nat, sent);
        let e = entries[n - 1];
        let id = image_id_of(e.0@);
        if ids.contains(id) {
            (bytes, ids)
        } else {
            (bytes + sprite_upload(id, e.1), ids.insert(id))
        }
    }
}

/// Which sprite image ids were uploaded to the terminal this session, so
/// each uploads once.
pub struct KittyUploader {
    uploaded: HashSet<u32>,
}

impl KittyUploader {
    /// The ids uploaded so far.
    pub closed spec fn sent(&self) -> Set<u32> {
        self.uploaded@
    }

    pub fn new() -> (u: Self)
        ensures
            u.sent() == Set::<u32>::empty(),
    {
        KittyUploader { uploaded: HashSet::new() }
    }

    /// Transmit bytes for every decoded sprite not yet uploaded, in the
    /// store's entry order; their ids join the uploaded set.
    pub fn pending_uploads(&mut self, assets: &AssetStore) -> (out: Vec<u8>)
        requires
            assets.wf(),
        ensures
            (out@, final(self).sent()) == uploads(assets.entries(), assets.entries().len(), old(self).sent()),
    {
        let entries = assets.iter();
        let mut out: Vec<u8> = Vec::new();
        let mut i: usize = 0;
        while i < entries.len()
            invariant
                entries@ == assets.entries(),
                i <= entries@.len(),
                (out@, self.uploaded@) == uploads(entries@, i as nat, old(self).sent()),
            decreases entries@.len() - i,
        {
            let (name, sprite) = &entries[i];
            let id = string_asset_id(name.as_str());
            if self.uploaded.insert(id) {
                let frames = encode_transmit(id, sprite.width, sprite.height, sprite.rgba.as_slice());
                crate::text::append_bytes(&mut out, frames.as_slice());
            }
            i = i + 1;
        }
        out
    }

    /// How many distinct sprites were uploaded.
    pub fn uploaded_count(&self) -> (n: usize)
        ensures
            n == self.sent().len(),
    {
        self.uploaded.len()
    }
}

impl Default for KittyUploader {
    fn default() -> (u: Self)
        ensures
            u.sent() == Set::<u32>::empty(),
    {
        KittyUploader::new()
    }
}

/// `ESC [ <row + 1> ; <col + 1> H`: move the cursor to the zero-based cell
/// `(col, row)`.
pub open spec fn cursor_seq(col: u16, row: u16) -> Seq<u8> {
    seq![0x1bu8, 0x5b] + decimal(row as nat + 1) + seq![0x3bu8] + decimal(col as nat + 1) + seq![0x48u8]
}

/// The cursor goes to a zero-based cell with the 1-based `CUP` sequence:
/// `ESC [`, the row plus one, `;`, the column plus one, `H`.
pub proof fn lemma_cursor_one_based(col: u16, row: u16)
    ensures
        cursor_seq(col, row) == crate::pty::csi(decimal((row + 1) as nat) + seq![0x3bu8] + decimal((col + 1) as nat) + seq![0x48u8]),
{
    assert(cursor_seq(col, row) =~= crate::pty::csi(decimal((row + 1) as nat) + seq![0x3bu8] + decimal((col + 1) as nat) + seq![0x48u8]));
}

/// The cursor movement to the zero-based cell `(col, row)`, written before a
/// placement's placeholder cells.
pub fn cursor_to(col: u16, row: u16) -> (out: Vec<u8>)
    ensures
        out@ == cursor_seq(col, row),
{
    let mut out: Vec<u8> = Vec::new();
    out.push(0x1b);
    out.push(0x5b);
    push_decimal(&mut out, row as u64 + 1);
    out.push(0x3b);
    push_decimal(&mut out, col as u64 + 1);
    out.push(0x48);
    assert(out@ =~= cursor_seq(col, row));
    out
}

/// After walking the first `n` entries, the ids sent are exactly those sent
/// before together with the ids of those entries.
pub proof fn lemma_uploads_record(entries: Seq<(String, DecodedAsset)>, n: nat, sent: Set<u32>)
    requires
        n <= entries.len(),
    ensures
        sent.subset_of(uploads(entries, n, sent).1),
        forall|k: int| 0 <= k < n ==> uploads(entries, n, sent).1.contains(image_id_of(#[trigger] entries[k].0@)),
        forall|id: u32| #[trigger] uploads(entries, n, sent).1.contains(id) <==> (sent.contains(id) || exists|k: int|
            0 <= k < n && image_id_of(entries[k].0@) == id),
    decreases n,
{
    if n > 0 {
        lemma_uploads_record(entries, (n - 1) as nat, sent);
        let ids0 = uploads(entries, (n - 1) as nat, sent).1;
        assert forall|id: u32| #[trigger] uploads(entries, n, sent).1.contains(id) <==> (sent.contains(id) || exists|k: int|
            0 <= k < n && image_id_of(entries[k].0@) == id) by {
            if exists|k: int| 0 <= k < n && image_id_of(entries[k].0@) == id {
                let k = choose|k: int| 0 <= k < n && image_id_of(entries[k].0@) == id;
                if k < n - 1 {
                    assert(ids0.contains(image_id_of(entries[k].0@)));
                }
            }
            if uploads(entries, n, sent).1.contains(id) && !sent.contains(id) && id != image_id_of(entries[n - 1].0@) {
                let k = choose|k: int| 0 <= k < n - 1 && image_id_of(entries[k].0@) == id;
                assert(0 <= k < n);
            }
        }
    }
}

/// Walking entries whose ids were all sent emits nothing and sends nothing.
pub proof fn lemma_uploads_nothing_new(entries: Seq<(String, DecodedAsset)>, n: nat, sent: Set<u32>)
    requires
        n <= entries.len(),
        forall|k: int| 0 <= k < n ==> sent.contains(image_id_of(#[trigger] entries[k].0@)),
    ensures
        uploads(entries, n, sent) == (Seq::<u8>::empty(), sent),
    decreases n,
{
    if n > 0 {
        lemma_uploads_nothing_new(entries, (n - 1) as nat, sent);
    }
}

/// Each sprite uploads once per session: a pass over the store sends
/// exactly the ids not sent before (the sent set becomes the earlier one
/// together with the store's ids), and a second pass right after emits no
/// bytes and sends no new id.
pub proof fn lemma_uploads_once(entries: Seq<(String, DecodedAsset)>, sent: Set<u32>)
    ensures
        ({
            let after = uploads(entries, entries.len(), sent).1;
            &&& after =~= sent.union(Set::new(|id: u32| exists|k: int| 0 <= k < entries.len() && image_id_of(entries[k].0@) == id))
            &&& uploads(entries, entries.len(), after) == (Seq::<u8>::empty(), after)
        }),
{
    lemma_uploads_record(entries, entries.len(), sent);
    lemma_uploads_nothing_new(entries, entries.len(), uploads(entries, entries.len(), sent).1);
}

/// The placement covers the sprite exactly: the first cell and offset give
/// back the device origin, the offset lies inside a cell, and the size in
/// cells is the least that covers the offset sprite (one cell at least).
pub proof fn lemma_placement_covers(cell_w: u16, cell_h: u16, dev_x: u32, dev_y: u32, dev_w: u32, dev_h: u32)
    requires
        (dev_x as int) / cell_dim(cell_w) <= u16::MAX,
        (dev_y as int) / cell_dim(cell_h) <= u16::MAX,
        ceil_div((dev_x as int) % cell_dim(cell_w) + dev_w, cell_dim(cell_w)) <= u16::MAX,
        ceil_div((dev_y as int) % cell_dim(cell_h) + dev_h, cell_dim(cell_h)) <= u16::MAX,
    ensures
        ({
            let p = placement_of(cell_w, cell_h, dev_x, dev_y, dev_w, dev_h);
            let cw = cell_dim(cell_w);
            let ch = cell_dim(cell_h);
            &&& p.cell_col * cw + p.x_off == dev_x
            &&& p.cell_row * ch + p.y_off == dev_y
            &&& p.x_off < cw
            &&& p.y_off < ch
            &&& p.cols * cw >= p.x_off + dev_w
            &&& p.rows * ch >= p.y_off + dev_h
            &&& p.cols >= 1 && p.rows >= 1
            &&& (p.cols == 1 || (p.cols - 1) * cw < p.x_off + dev_w)
            &&& (p.rows == 1 || (p.rows - 1) * ch < p.y_off + dev_h)
        }),
{
    let cw = cell_dim(cell_w);
    let ch = cell_dim(cell_h);
    let xo = (dev_x as int) % cw;
    let yo = (dev_y as int) % ch;
    vstd::arithmetic::div_mod::lemma_fundamental_div_mod(dev_x as int, cw);
    vstd::arithmetic::div_mod::lemma_fundamental_div_mod(dev_y as int, ch);
    vstd::arithmetic::div_mod::lemma_mod_bound(dev_x as int, cw);
    vstd::arithmetic::div_mod::lemma_mod_bound(dev_y as int, ch);
    lemma_ceil_div(xo + dev_w, cw);
    lemma_ceil_div(yo + dev_h, ch);
    let p = placement_of(cell_w, cell_h, dev_x, dev_y, dev_w, dev_h);
    assert(p.x_off == xo);
    assert(p.y_off == yo);
    assert(p.cell_col == (dev_x as int) / cw);
    assert(p.cell_row == (dev_y as int) / ch);
    let c = ceil_div(xo + dev_w, cw);
    let r = ceil_div(yo + dev_h, ch);
    assert(p.cols == (if c < 1 { 1 } else { c }));
    assert(p.rows == (if r < 1 { 1 } else { r }));
    assert(p.cell_col * cw + p.x_off == dev_x) by (nonlinear_arith)
        requires
            dev_x == cw * ((dev_x as int) / cw) + xo,
            p.cell_col == (dev_x as int) / cw,
            p.x_off == xo,
    ;
    assert(p.cell_row * ch + p.y_off == dev_y) by (nonlinear_arith)
        requires
            dev_y == ch * ((dev_y as int) / ch) + yo,
            p.cell_row == (dev_y as int) / ch,
            p.y_off == yo,
    ;
    assert(p.cols * cw >= p.x_off + dev_w) by (nonlinear_arith)
        requires
            c * cw >= xo + dev_w,
            p.cols == (if c < 1 { 1 } else { c }),
            cw > 0,
            p.x_off == xo,
    ;
    assert(p.rows * ch >= p.y_off + dev_h) by (nonlinear_arith)
        requires
            r * ch >= yo + dev_h,
            p.rows == (if r < 1 { 1 } else { r }),
            ch > 0,
            p.y_off == yo,
    ;
}

/// `ceil_div(a, b)` is the least `q` with `q·b ≥ a`.
proof fn lemma_ceil_div(a: int, b: int)
    requires
        a >= 0,
        b > 0,
    ensures
        ceil_div(a, b) * b >= a,
        ceil_div(a, b) >= 0,
        ceil_div(a, b) == 0 || (ceil_div(a, b) - 1) * b < a,
{
    vstd::arithmetic::div_mod::lemma_fundamental_div_mod(a, b);
    vstd::arithmetic::div_mod::lemma_mod_bound(a, b);
    vstd::arithmetic::div_mod::lemma_div_pos_is_pos(a, b);
    let q = a / b;
    let r = a % b;
    assert(q * b == a - r) by (nonlinear_arith)
        requires
            a == b * q + r,
    ;
    assert((q + 1) * b == q * b + b) by (nonlinear_arith);
    assert((q - 1) * b == q * b - b) by (nonlinear_arith);
}

} // verus!
