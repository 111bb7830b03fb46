//! Speech-bubble sprites (11×13): permission, a white box with amber dots;
//! waiting, a white box with a green check; both with a downward tail.

use vstd::prelude::*;
use vstd::string::*;

use crate::assets::DecodedAsset;
use crate::office::types::BubbleType;

verus! {

/// Width of a bubble sprite.
pub const BUBBLE_W: u32 = 11;
/// Height of a bubble sprite.
pub const BUBBLE_H: u32 = 13;

/// The permission bubble's pixel keys, row by row (`_` transparent).
pub open spec fn permission_rows() -> Seq<Seq<char>> {
    seq![
        "BBBBBBBBBBB"@,
        "BFFFFFFFFFB"@,
        "BFFFFFFFFFB"@,
        "BFFFFFFFFFB"@,
        "BFFFFFFFFFB"@,
        "BFFAFAFAFFB"@,
        "BFFFFFFFFFB"@,
        "BFFFFFFFFFB"@,
        "BFFFFFFFFFB"@,
        "BBBBBBBBBBB"@,
        "____BBB____"@,
        "_____B_____"@,
        "___________"@,
    ]
}

/// The waiting bubble's pixel keys, row by row (`_` transparent).
pub open spec fn waiting_rows() -> Seq<Seq<char>> {
    seq![
        "_BBBBBBBBB_"@,
        "BFFFFFFFFFB"@,
        "BFFFFFFFFFB"@,
        "BFFFFFFFGFB"@,
        "BFFFFFFGFFB"@,
        "BFFGFFGFFFB"@,
        "BFFFGGFFFFB"@,
        "BFFFFFFFFFB"@,
        "BFFFFFFFFFB"@,
        "_BBBBBBBBB_"@,
        "____BBB____"@,
        "_____B_____"@,
        "___________"@,
    ]
}

/// The pixel keys of a bubble kind.
pub open spec fn bubble_rows(kind: BubbleType) -> Seq<Seq<char>> {
    match kind {
        BubbleType::Permission => permission_rows(),
        BubbleType::Waiting => waiting_rows(),
    }
}

/// Channel `c` of a pixel key: border, fill, amber, green, else transparent.
pub open spec fn key_channel(k: char, c: int) -> u8 {
    let px: Seq<u8> = if k == 'B' {
        seq![0x55u8, 0x55, 0x66, 255]
    } else if k == 'F' {
        seq![0xEEu8, 0xEE, 0xFF, 255]
    } else if k == 'A' {
        seq![0xCCu8, 0xA7, 0x00, 255]
    } else if k == 'G' {
        seq![0x44u8, 0xBB, 0x66, 255]
    } else {
        seq![0u8, 0, 0, 0]
    };
    px[c]
}

/// The RGBA of a pixel key.
fn key_rgba(k: u8) -> (px: [u8; 4])
    ensures
        forall|c: int| 0 <= c < 4 ==> px@[c] == key_channel(k as char, c),
{
    if k == 0x42 {
        [0x55, 0x55, 0x66, 255]
    } else if k == 0x46 {
        [0xEE, 0xEE, 0xFF, 255]
    } else if k == 0x41 {
        [0xCC, 0xA7, 0x00, 255]
    } else if k == 0x47 {
        [0x44, 0xBB, 0x66, 255]
    } else {
        [0, 0, 0, 0]
    }
}

/// The bubble sprite for a kind: `BUBBLE_W × BUBBLE_H` RGBA pixels painted
/// from its key rows.
pub fn bubble_sprite(kind: BubbleType) -> (s: DecodedAsset)
    ensures
        s.width == BUBBLE_W,
        s.height == BUBBLE_H,
        s.rgba@.len() == 11 * 13 * 4,
        forall|r: int, col: int, c: int| 0 <= r < 13 && 0 <= col < 11 && 0 <= c < 4
            ==> s.rgba@[(r * 11 + col) * 4 + c] == key_channel(bubble_rows(kind)[r][col], c),
{
    proof {
        reveal_strlit("BBBBBBBBBBB");
        reveal_strlit("BFFAFAFAFFB");
        reveal_strlit("BFFFFFFFFFB");
        reveal_strlit("BFFFFFFFGFB");
        reveal_strlit("BFFFFFFGFFB");
        reveal_strlit("BFFFGGFFFFB");
        reveal_strlit("BFFGFFGFFFB");
        reveal_strlit("_BBBBBBBBB_");
        reveal_strlit("____BBB____");
        reveal_strlit("_____B_____");
        reveal_strlit("___________");
    }
    let rows: [&str; 13] = match kind {
        BubbleType::Permission => [
        "BBBBBBBBBBB",
        "BFFFFFFFFFB",
        "BFFFFFFFFFB",
        "BFFFFFFFFFB",
        "BFFFFFFFFFB",
        "BFFAFAFAFFB",
        "BFFFFFFFFFB",
        "BFFFFFFFFFB",
        "BFFFFFFFFFB",
        "BBBBBBBBBBB",
        "____BBB____",
        "_____B_____",
        "___________",
    ],
        BubbleType::Waiting => [
        "_BBBBBBBBB_",
        "BFFFFFFFFFB",
        "BFFFFFFFFFB",
        "BFFFFFFFGFB",
        "BFFFFFFGFFB",
        "BFFGFFGFFFB",
        "BFFFGGFFFFB",
        "BFFFFFFFFFB",
        "BFFFFFFFFFB",
        "_BBBBBBBBB_",
        "____BBB____",
        "_____B_____",
        "___________",
    ],
    };
    assert(forall|r: int| 0 <= r < 13 ==> #[trigger] rows@[r]@ == bubble_rows(kind)[r]);
    let mut rgba: Vec<u8> = Vec::new();
    let mut r: usize = 0;
    while r < 13
        invariant
            r <= 13,
            forall|k: int| 0 <= k < 13 ==> #[trigger] rows@[k]@ == bubble_rows(kind)[k],
            forall|k: int| 0 <= k < 13 ==> (#[trigger] bubble_rows(kind)[k]).len() == 11,
            forall|k: int| 0 <= k < 13 ==> is_ascii(#[trigger] rows@[k]),
            rgba@.len() == r * 11 * 4,
            forall|r2: int, col: int, c: int| 0 <= r2 < r && 0 <= col < 11 && 0 <= c < 4
                ==> rgba@[(r2 * 11 + col) * 4 + c] == key_channel(bubble_rows(kind)[r2][col], c),
        decreases 13 - r,
    {
        let row = rows[r];
        proof {
            is_ascii_spec_bytes(row);
        }
        let bytes = row.as_bytes();
        assert(bytes@.len() == 11);
        let mut col: usize = 0;
        while col < 11
            invariant
                r < 13,
                col <= 11,
                bytes@.len() == 11,
                forall|k: int| 0 <= k < 11 ==> bytes@[k] as char == bubble_rows(kind)[r as int][k],
                rgba@.len() == (r * 11 + col) * 4,
                forall|r2: int, col2: int, c: int| 0 <= r2 <= r && 0 <= col2 < 11 && 0 <= c < 4 && r2 * 11 + col2 < r * 11 + col
                    ==> rgba@[(r2 * 11 + col2) * 4 + c] == key_channel(bubble_rows(kind)[r2][col2], c),
            decreases 11 - col,
        {
            let px = key_rgba(bytes[col]);
            rgba.push(px[0]);
            rgba.push(px[1]);
            rgba.push(px[2]);
            rgba.push(px[3]);
            col = col + 1;
        }
        r = r + 1;
    }
    DecodedAsset { width: BUBBLE_W, height: BUBBLE_H, rgba }
}

} // verus!
