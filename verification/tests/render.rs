use std::collections::HashSet;

use pixel_agents_tui::assets::{AssetStore, DecodedAsset};
use pixel_agents_tui::office::types::{BubbleType, CharacterState, Direction};
use pixel_agents_tui::render::b64::encode;
use pixel_agents_tui::render::bubbles::bubble_sprite;
use pixel_agents_tui::render::char_sprites::{
    build_set, extract_frame, flip_h, CharSpriteStore, FRAME_H, FRAME_W, SHEET_H, SHEET_W,
};
use pixel_agents_tui::render::iterm2::{encode_inline, rgba_to_png, PngError};
use pixel_agents_tui::render::kitty::{
    base64_encode, compute_placement, cursor_to, diacritics, encode_transmit, encode_virtual_placement,
    placeholder_text, KittyUploader, Placement, CHUNK_BASE64_LEN, PLACEHOLDER,
};
use pixel_agents_tui::render::outline::outline_sprite;
use pixel_agents_tui::render::scene::{compose_t1k_frame, scale_rgba, ImagePlacement};
use pixel_agents_tui::render::sixel::{encode_sixel, quantize, to_sixel_channel};

const WHITE: [u8; 4] = [255, 255, 255, 255];

fn s(bytes: Vec<u8>) -> String {
    String::from_utf8(bytes).unwrap()
}

fn same(px: Vec<u8>, _hue: i32) -> Vec<u8> {
    px
}

fn png_of(w: u32, h: u32, rgba: [u8; 4]) -> Vec<u8> {
    let mut buf = image::RgbaImage::new(w, h);
    for px in buf.pixels_mut() {
        *px = image::Rgba(rgba);
    }
    let mut out = std::io::Cursor::new(Vec::new());
    image::DynamicImage::ImageRgba8(buf).write_to(&mut out, image::ImageFormat::Png).unwrap();
    out.into_inner()
}

// ── base64 ──────────────────────────────────────────────────────────────────

#[test]
fn rfc4648_vectors() {
    assert_eq!(encode(b""), b"");
    assert_eq!(encode(b"f"), b"Zg==");
    assert_eq!(encode(b"fo"), b"Zm8=");
    assert_eq!(encode(b"foo"), b"Zm9v");
    assert_eq!(encode(b"foob"), b"Zm9vYg==");
    assert_eq!(encode(b"fooba"), b"Zm9vYmE=");
    assert_eq!(encode(b"foobar"), b"Zm9vYmFy");
}

#[test]
fn base64_uses_whole_alphabet() {
    assert_eq!(encode(&[0xfb, 0xff, 0xbf]), b"+/+/");
    assert_eq!(encode(&[0x00, 0x10, 0x83]), b"ABCD");
    assert_eq!(encode(&[0xd3, 0x5d, 0xb7]), b"0123");
}

// ── kitty ───────────────────────────────────────────────────────────────────

#[test]
fn base64_known_vectors() {
    assert_eq!(base64_encode(b""), b"");
    assert_eq!(base64_encode(b"f"), b"Zg==");
    assert_eq!(base64_encode(b"fo"), b"Zm8=");
    assert_eq!(base64_encode(b"foo"), b"Zm9v");
    assert_eq!(base64_encode(b"foob"), b"Zm9vYg==");
}

#[test]
fn transmit_single_chunk_1x1_red() {
    let bytes = encode_transmit(7, 1, 1, &[255, 0, 0, 255]);
    assert_eq!(s(bytes), "\x1b_Ga=t,f=32,s=1,v=1,i=7,m=0;/wAA/w==\x1b\\");
}

#[test]
fn transmit_chunks_control_keys_first_only() {
    let raw = vec![0xABu8; 4096];
    let text = s(encode_transmit(42, 32, 32, &raw));
    let frames: Vec<&str> = text.split("\x1b\\").filter(|f| !f.is_empty()).collect();
    assert_eq!(frames.len(), 2, "expected exactly two transmit chunks");
    assert!(frames[0].contains("a=t,f=32,s=32,v=32,i=42,"));
    assert!(frames[0].contains("m=1;"));
    assert!(!frames[1].contains("a=t"));
    assert!(!frames[1].contains("i=42"));
    assert!(frames[1].contains("m=0;"));
    let payload0 = frames[0].split(';').nth(1).unwrap();
    assert_eq!(payload0.len(), CHUNK_BASE64_LEN);
}

#[test]
fn transmit_empty_payload_is_one_final_command() {
    assert_eq!(s(encode_transmit(1, 0, 0, &[])), "\x1b_Ga=t,f=32,s=0,v=0,i=1,m=0;\x1b\\");
}

#[test]
fn virtual_placement_with_offsets() {
    let t = s(encode_virtual_placement(7, 1, 4, 2, 3, 5));
    assert_eq!(t, "\x1b_Ga=p,U=1,i=7,p=1,c=4,r=2,X=3,Y=5;\x1b\\");
}

#[test]
fn virtual_placement_omits_zero_offsets() {
    let t = s(encode_virtual_placement(7, 1, 4, 2, 0, 0));
    assert_eq!(t, "\x1b_Ga=p,U=1,i=7,p=1,c=4,r=2;\x1b\\");
    assert!(!t.contains("X="));
    assert!(!t.contains("Y="));
}

#[test]
fn placeholder_fg_color_is_low_24_bits_big_endian() {
    let t = placeholder_text(0x01_02_03, 2, 2);
    assert!(t.contains("\x1b[38;2;1;2;3m"), "fg should carry low 24 bits big-endian");
    let t27 = placeholder_text(27, 1, 1);
    assert!(t27.contains("\x1b[38;2;0;0;27m"), "id 27 → fg 0;0;27");
}

#[test]
fn placeholder_grid_shape_and_diacritics() {
    let t = placeholder_text(0xAB, 2, 2);
    assert_eq!(t.matches(PLACEHOLDER).count(), 4);
    let d = diacritics();
    let d0 = d[0];
    let d1 = d[1];
    let cell00: String = [PLACEHOLDER, d0, d0, d[0]].iter().collect();
    assert!(t.contains(&cell00));
    let cell01: String = [PLACEHOLDER, d0, d1].iter().collect();
    assert!(t.contains(&cell01));
    assert_eq!(t.matches('\n').count(), 1);
    assert_eq!(t.matches("\x1b[0m").count(), 2);
}

#[test]
fn placeholder_high_byte_rides_third_diacritic() {
    let d = diacritics();
    let t = placeholder_text(0x0500_0001, 1, 1);
    let cell: String = [PLACEHOLDER, d[0], d[0], d[5]].iter().collect();
    assert_eq!(t, format!("\x1b[38;2;0;0;1m{cell}\x1b[0m"));
}

#[test]
fn placement_aligned_sprite() {
    let p = compute_placement(8, 16, 0, 0, 64, 48);
    assert_eq!(p, Placement { cell_col: 0, cell_row: 0, cols: 8, rows: 3, x_off: 0, y_off: 0 });
}

#[test]
fn placement_sub_cell_offset_grows_grid() {
    let p = compute_placement(8, 16, 3, 5, 16, 16);
    assert_eq!(p.cell_col, 0);
    assert_eq!(p.cell_row, 0);
    assert_eq!(p.x_off, 3);
    assert_eq!(p.y_off, 5);
    assert_eq!(p.cols, 3);
    assert_eq!(p.rows, 2);
}

#[test]
fn placement_cell_index_from_device_px() {
    let p = compute_placement(8, 16, 20, 40, 8, 16);
    assert_eq!((p.cell_col, p.cell_row), (2, 2));
    assert_eq!((p.x_off, p.y_off), (4, 8));
}

#[test]
fn placement_zero_cell_size_reads_as_one_and_empty_sprite_takes_one_cell() {
    let p = compute_placement(0, 0, 5, 6, 0, 0);
    assert_eq!(p, Placement { cell_col: 5, cell_row: 6, cols: 1, rows: 1, x_off: 0, y_off: 0 });
}

#[test]
fn uploader_dedupes_per_session() {
    let png = png_of(1, 1, [1, 2, 3, 255]);
    let mut assets = AssetStore::new();
    let nid = assets.register_request("DESK");
    assets.on_frame(nid, 0, true, &png).unwrap();
    let mut up = KittyUploader::new();
    let first = up.pending_uploads(&assets);
    assert!(!first.is_empty(), "first call uploads the sprite");
    assert_eq!(up.uploaded_count(), 1);
    let second = up.pending_uploads(&assets);
    assert!(second.is_empty(), "already-uploaded sprite is not re-sent");
    assert_eq!(up.uploaded_count(), 1);
}

#[test]
fn uploader_sends_the_sprite_under_its_djb2_id() {
    let png = png_of(1, 1, [255, 0, 0, 255]);
    let mut assets = AssetStore::new();
    let nid = assets.register_request("a");
    assets.on_frame(nid, 0, true, &png).unwrap();
    let mut up = KittyUploader::default();
    assert_eq!(s(up.pending_uploads(&assets)), "\x1b_Ga=t,f=32,s=1,v=1,i=177670,m=0;/wAA/w==\x1b\\");
}

#[test]
fn diacritics_table_complete_and_valid() {
    let d = diacritics();
    assert_eq!(d.len(), 297);
    assert_eq!(d[0] as u32, 0x0305);
    assert_eq!(d[296] as u32, 0x1D244);
    for &c in d.iter() {
        assert!(char::from_u32(c as u32).is_some(), "{:#x} is a valid scalar", c as u32);
    }
}

#[test]
fn cursor_to_is_one_based() {
    assert_eq!(cursor_to(0, 0), b"\x1b[1;1H".to_vec());
    assert_eq!(cursor_to(9, 4), b"\x1b[5;10H".to_vec());
}

// ── iTerm2 ──────────────────────────────────────────────────────────────────

#[test]
fn inline_envelope_structure() {
    let t = s(encode_inline(b"foo", 8, 4));
    assert_eq!(t, "\x1b]1337;File=inline=1;size=3;width=8;height=4;preserveAspectRatio=0:Zm9v\x07");
}

#[test]
fn inline_ends_with_bel_and_carries_size() {
    let bytes = encode_inline(&[0u8; 10], 1, 1);
    assert_eq!(*bytes.last().unwrap(), 0x07, "must terminate with BEL");
    let t = s(bytes);
    assert!(t.contains(";size=10"), "size = raw byte length, not base64 length");
    assert!(t.starts_with("\x1b]1337;File=inline=1"));
}

#[test]
fn rgba_to_png_roundtrips_dims() {
    let rgba = vec![7u8; 2 * 3 * 4];
    let png = rgba_to_png(2, 3, &rgba).unwrap();
    let img = image::load_from_memory_with_format(&png, image::ImageFormat::Png).unwrap().to_rgba8();
    assert_eq!((img.width(), img.height()), (2, 3));
}

#[test]
fn rgba_to_png_rejects_wrong_buffer_size() {
    assert!(rgba_to_png(2, 2, &[0u8; 7]).is_err());
    assert_eq!(rgba_to_png(2, 2, &[0u8; 7]).unwrap_err(), PngError::WrongSize { width: 2, height: 2 });
}

// ── outline ─────────────────────────────────────────────────────────────────

fn dot() -> DecodedAsset {
    let mut rgba = vec![0u8; 3 * 3 * 4];
    let i = (1 * 3 + 1) * 4;
    rgba[i..i + 4].copy_from_slice(&[10, 20, 30, 255]);
    DecodedAsset { width: 3, height: 3, rgba }
}

#[test]
fn outline_is_two_px_larger() {
    let o = outline_sprite(&dot());
    assert_eq!((o.width, o.height), (5, 5));
}

#[test]
fn outline_rings_the_silhouette_and_clears_center() {
    let o = outline_sprite(&dot());
    let c = ((2 * 5 + 2) * 4) as usize;
    assert_eq!(o.rgba[c + 3], 0, "centre cleared");
    for (dx, dy) in [(0i32, -1i32), (0, 1), (-1, 0), (1, 0)] {
        let x = (2 + dx) as u32;
        let y = (2 + dy) as u32;
        let i = ((y * 5 + x) * 4) as usize;
        assert_eq!(&o.rgba[i..i + 4], &WHITE, "neighbour ({x},{y}) white");
    }
}

#[test]
fn outline_leaves_diagonals_transparent() {
    let o = outline_sprite(&dot());
    for (x, y) in [(1u32, 1u32), (3, 1), (1, 3), (3, 3), (0, 0)] {
        let i = ((y * 5 + x) * 4) as usize;
        assert_eq!(&o.rgba[i..i + 4], &[0, 0, 0, 0]);
    }
}

// ── sixel ───────────────────────────────────────────────────────────────────

#[test]
fn sixel_channel_scale() {
    assert_eq!(to_sixel_channel(0), 0);
    assert_eq!(to_sixel_channel(255), 100);
    assert_eq!(to_sixel_channel(128), 50);
}

#[test]
fn single_red_pixel() {
    let out = s(encode_sixel(1, 1, &[255, 0, 0, 255]));
    assert_eq!(out, "\x1bP0;1;0q\"1;1;1;1#0;2;100;0;0#0@\x1b\\");
}

#[test]
fn fully_transparent_emits_no_pixel_data() {
    let out = s(encode_sixel(1, 1, &[255, 0, 0, 0]));
    assert_eq!(out, "\x1bP0;1;0q\"1;1;1;1\x1b\\");
}

#[test]
fn duplicate_color_shares_one_register() {
    let out = s(encode_sixel(2, 1, &[255, 0, 0, 255, 255, 0, 0, 255]));
    assert_eq!(out, "\x1bP0;1;0q\"1;1;2;1#0;2;100;0;0#0@@\x1b\\");
    assert_eq!(out.matches("#0;2;").count(), 1, "single register");
}

#[test]
fn rle_compresses_long_runs() {
    let rgba: Vec<u8> = [255, 0, 0, 255].iter().cloned().cycle().take(5 * 4).collect();
    let out = s(encode_sixel(5, 1, &rgba));
    assert!(out.contains("!5@"), "5-long run should RLE to !5@: {out}");
}

#[test]
fn two_colors_overlay_with_carriage_return() {
    let out = s(encode_sixel(2, 1, &[255, 0, 0, 255, 0, 255, 0, 255]));
    assert!(out.contains('$'), "two colors in a band need a `$` overlay sep");
    assert!(out.contains("#0;2;100;0;0"));
    assert!(out.contains("#1;2;0;100;0"));
}

#[test]
fn multi_band_separated_by_newline() {
    let rgba: Vec<u8> = [0, 0, 255, 255].iter().cloned().cycle().take(7 * 4).collect();
    let out = s(encode_sixel(1, 7, &rgba));
    assert_eq!(out.matches('-').count(), 1, "7 rows = 2 bands = one newline");
}

#[test]
fn second_row_sets_second_bit() {
    let out = s(encode_sixel(1, 2, &[255, 0, 0, 255, 255, 0, 0, 255]));
    assert!(out.ends_with("#0B\x1b\\"), "two stacked pixels → 'B': {out}");
}

#[test]
fn header_and_terminator_present() {
    let out = s(encode_sixel(1, 1, &[1, 2, 3, 255]));
    assert!(out.starts_with("\x1bP0;1;0q\"1;1;"), "DCS header + raster attrs");
    assert!(out.ends_with("\x1b\\"), "ST terminator");
}

#[test]
fn over_256_colors_falls_back_to_332() {
    let mut rgba = Vec::new();
    for i in 0..300u32 {
        rgba.extend_from_slice(&[(i & 0xff) as u8, ((i >> 1) & 0xff) as u8, ((i >> 2) & 0xff) as u8, 255]);
    }
    let q = quantize(300, 1, &rgba);
    assert!(q.palette.len() <= 256, "fallback must cap palette at 256");
    assert!(!q.palette.is_empty());
}

#[test]
fn two_colour_band_exact_bytes() {
    let out = s(encode_sixel(2, 1, &[255, 0, 0, 255, 0, 255, 0, 255]));
    assert_eq!(out, "\x1bP0;1;0q\"1;1;2;1#0;2;100;0;0#1;2;0;100;0#0@?$#1?@\x1b\\");
}

#[test]
fn exactly_four_equal_columns_are_run_coded() {
    let rgba: Vec<u8> = [255, 0, 0, 255].iter().cloned().cycle().take(4 * 4).collect();
    assert!(s(encode_sixel(4, 1, &rgba)).contains("#0!4@"));
    let rgba3: Vec<u8> = [255, 0, 0, 255].iter().cloned().cycle().take(3 * 4).collect();
    assert!(s(encode_sixel(3, 1, &rgba3)).contains("#0@@@"));
}

// ── bubbles ─────────────────────────────────────────────────────────────────

#[test]
fn permission_dims_and_amber_dot() {
    let sp = bubble_sprite(BubbleType::Permission);
    assert_eq!((sp.width, sp.height), (11, 13));
    let i = ((5 * 11 + 3) * 4) as usize;
    assert_eq!(&sp.rgba[i..i + 4], &[0xCC, 0xA7, 0x00, 255]);
}

#[test]
fn waiting_has_green_check_and_transparent_corners() {
    let sp = bubble_sprite(BubbleType::Waiting);
    assert_eq!(&sp.rgba[0..4], &[0, 0, 0, 0]);
    let i = ((3 * 11 + 8) * 4) as usize;
    assert_eq!(&sp.rgba[i..i + 4], &[0x44, 0xBB, 0x66, 255]);
}

#[test]
fn bubbles_are_the_same_each_time() {
    assert_eq!(bubble_sprite(BubbleType::Permission), bubble_sprite(BubbleType::Permission));
    assert_ne!(bubble_sprite(BubbleType::Permission), bubble_sprite(BubbleType::Waiting));
}

// ── character sprites ───────────────────────────────────────────────────────

fn marker_sheet() -> DecodedAsset {
    let mut rgba = vec![0u8; (SHEET_W * SHEET_H * 4) as usize];
    for y in 0..SHEET_H {
        for x in 0..SHEET_W {
            let i = ((y * SHEET_W + x) as usize) * 4;
            rgba[i] = (x / FRAME_W) as u8 * 10;
            rgba[i + 1] = (y / FRAME_H) as u8 * 10;
            rgba[i + 2] = 0;
            rgba[i + 3] = 255;
        }
    }
    DecodedAsset { width: SHEET_W, height: SHEET_H, rgba }
}

#[test]
fn extract_frame_picks_correct_grid_cell() {
    let sheet = marker_sheet();
    let f = extract_frame(&sheet, 5, 2, 0, &same);
    assert_eq!((f.width, f.height), (FRAME_W, FRAME_H));
    assert_eq!(&f.rgba[0..4], &[50, 20, 0, 255]);
}

#[test]
fn extract_frame_hands_nonzero_shift_to_recolor() {
    let sheet = marker_sheet();
    let f = extract_frame(&sheet, 1, 0, 90, &|mut px: Vec<u8>, hue: i32| {
        px[2] = hue as u8;
        px
    });
    assert_eq!(&f.rgba[0..4], &[10, 0, 90, 255]);
}

#[test]
fn flip_h_mirrors_columns() {
    let sheet = marker_sheet();
    let f = extract_frame(&sheet, 0, 0, 0, &same);
    let flipped = flip_h(&f);
    let src_last = &f.rgba[(15 * 4)..(15 * 4 + 4)];
    assert_eq!(&flipped.rgba[0..4], src_last);
}

#[test]
fn frame_select_matches_webview_mapping() {
    let sheet = marker_sheet();
    let set = build_set(&sheet, 0, &same);
    let f = set.frame_for(CharacterState::Walk, Direction::Down, 5, None);
    assert_eq!(f.rgba[0], 10, "walk frame col 1");
    let f = set.frame_for(CharacterState::Type, Direction::Down, 0, Some("Read"));
    assert_eq!(f.rgba[0], 50, "reading frame col 5");
    let f = set.frame_for(CharacterState::Type, Direction::Down, 0, Some("Edit"));
    assert_eq!(f.rgba[0], 30, "typing frame col 3");
    let f = set.frame_for(CharacterState::Idle, Direction::Down, 0, None);
    assert_eq!(f.rgba[0], 10, "idle uses walk frame col 1");
}

#[test]
fn left_dir_uses_flipped_right() {
    let sheet = marker_sheet();
    let set = build_set(&sheet, 0, &same);
    let right = set.frame_for(CharacterState::Walk, Direction::Right, 0, None);
    let left = set.frame_for(CharacterState::Walk, Direction::Left, 0, None);
    let right_last = &right.rgba[(15 * 4)..(15 * 4 + 4)];
    assert_eq!(&left.rgba[0..4], right_last);
}

#[test]
fn store_builds_and_caches_set() {
    let mut store = CharSpriteStore::new();
    assert!(store.get(0, 0).is_none());
    store.ingest(0, marker_sheet());
    store.ensure(0, 0, &same);
    assert!(store.get(0, 0).is_some());
    store.ensure(0, 90, &same);
    assert!(store.get(0, 90).is_some());
}

#[test]
fn ingest_invalidates_prior_sets() {
    let mut store = CharSpriteStore::new();
    store.ingest(0, marker_sheet());
    store.ensure(0, 0, &same);
    store.ingest(0, marker_sheet());
    assert!(store.get(0, 0).is_none(), "reload drops built sets");
}

#[test]
fn ingest_keeps_other_palettes() {
    let mut store = CharSpriteStore::default();
    store.ingest(0, marker_sheet());
    store.ingest(1, marker_sheet());
    store.ensure(0, 0, &same);
    store.ensure(1, 0, &same);
    store.ingest(0, marker_sheet());
    assert!(store.get(0, 0).is_none());
    assert!(store.get(1, 0).is_some());
    assert!(store.has_sheet(0) && store.has_sheet(1) && !store.has_sheet(2));
}

#[test]
fn undersized_sheet_does_not_build() {
    let mut store = CharSpriteStore::new();
    store.ingest(0, DecodedAsset { width: 16, height: 16, rgba: vec![0; 16 * 16 * 4] });
    store.ensure(0, 0, &same);
    assert!(store.get(0, 0).is_none());
}

#[test]
fn asset_id_roundtrips_palette() {
    assert_eq!(CharSpriteStore::asset_id(3), "char_3");
    assert_eq!(CharSpriteStore::palette_of("char_3"), Some(3));
    assert_eq!(CharSpriteStore::palette_of("DESK"), None);
}

#[test]
fn palette_of_reads_like_u8_from_str() {
    assert_eq!(CharSpriteStore::palette_of("char_255"), Some(255));
    assert_eq!(CharSpriteStore::palette_of("char_256"), None);
    assert_eq!(CharSpriteStore::palette_of("char_+7"), Some(7));
    assert_eq!(CharSpriteStore::palette_of("char_007"), Some(7));
    assert_eq!(CharSpriteStore::palette_of("char_"), None);
    assert_eq!(CharSpriteStore::palette_of("char_x"), None);
}

// ── scene ───────────────────────────────────────────────────────────────────

#[test]
fn scale_rgba_nearest_neighbour_doubles() {
    let (out, w, h) = scale_rgba(&[1, 2, 3, 4], 1, 1, 2);
    assert_eq!((w, h), (2, 2));
    assert_eq!(out.len(), 2 * 2 * 4);
    assert!(out.chunks(4).all(|p| p == [1, 2, 3, 4]));
}

#[test]
fn scale_rgba_factor_one_copies() {
    let (out, w, h) = scale_rgba(&[9, 8, 7, 6, 5, 4, 3, 2], 2, 1, 1);
    assert_eq!((out, w, h), (vec![9, 8, 7, 6, 5, 4, 3, 2], 2, 1));
    let (out2, w2, _) = scale_rgba(&[1, 1, 1, 1, 2, 2, 2, 2], 2, 1, 2);
    assert_eq!(w2, 4);
    assert_eq!(&out2[..16], &[1, 1, 1, 1, 1, 1, 1, 1, 2, 2, 2, 2, 2, 2, 2, 2]);
}

#[test]
fn t1k_frame_transmits_once_then_places() {
    let mut assets = AssetStore::new();
    let png = png_of(16, 16, [0, 0, 0, 0]);
    let nid = assets.register_request("DESK");
    assets.on_frame(nid, 0, true, &png).unwrap();
    let p = compute_placement(8, 16, 40 * 8, 12 * 16, 16, 16);
    let pls = vec![ImagePlacement { image_id: nid, placement: p }];
    let mut uploaded = HashSet::new();
    let frame1 = s(compose_t1k_frame(&pls, &assets, &mut uploaded));
    assert!(frame1.contains("\x1b_Ga=t"), "first frame transmits the sprite");
    assert!(frame1.contains("\x1b_Ga=p,U=1"), "and places it");
    let frame2 = s(compose_t1k_frame(&pls, &assets, &mut uploaded));
    assert!(!frame2.contains("\x1b_Ga=t"), "no re-transmit once uploaded");
    assert!(frame2.contains("\x1b_Ga=p,U=1"), "still places");
}

#[test]
fn t1k_frame_places_each_entity_exactly() {
    let assets = AssetStore::new();
    let pl = Placement { cell_col: 2, cell_row: 1, cols: 1, rows: 1, x_off: 0, y_off: 0 };
    let pls = vec![ImagePlacement { image_id: 7, placement: pl }];
    let mut uploaded = HashSet::new();
    let frame = s(compose_t1k_frame(&pls, &assets, &mut uploaded));
    let expected = format!("\x1b[2;3H\x1b_Ga=p,U=1,i=7,p=1,c=1,r=1;\x1b\\{}", placeholder_text(7, 1, 1));
    assert_eq!(frame, expected);
    // No sprite with id 7 is stored yet: nothing was sent, so nothing is
    // recorded, and a later frame transmits it once it is decoded.
    assert!(!uploaded.contains(&7));
}
