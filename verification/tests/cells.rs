use pixel_agents_tui::chrome::CellRect;
use pixel_agents_tui::render::cells::{braille_cells, halfblock_cells, CellPaint};
use ratatui::buffer::Buffer;
use ratatui::layout::Rect;
use ratatui::style::Color;

fn area_of(buf: &Buffer) -> CellRect {
    CellRect { x: buf.area.x, y: buf.area.y, width: buf.area.width, height: buf.area.height }
}

fn paint(buf: &mut Buffer, paints: &[CellPaint]) {
    for p in paints {
        let cell = &mut buf[(p.x, p.y)];
        cell.set_char(p.symbol);
        cell.set_fg(Color::Rgb(p.fg.0, p.fg.1, p.fg.2));
        if let Some((r, g, b)) = p.bg {
            cell.set_bg(Color::Rgb(r, g, b));
        }
    }
}

fn rasterize_halfblock(rgba: &[u8], w: u32, h: u32, buf: &mut Buffer, ox: u16, oy: u16) {
    let paints = halfblock_cells(rgba, w, h, ox, oy, area_of(buf));
    paint(buf, &paints);
}

fn rasterize_braille(rgba: &[u8], w: u32, h: u32, buf: &mut Buffer, ox: u16, oy: u16) {
    let paints = braille_cells(rgba, w, h, ox, oy, area_of(buf));
    paint(buf, &paints);
}

fn quad() -> Vec<u8> {
    vec![255, 0, 0, 255, 0, 255, 0, 255, 0, 0, 255, 255, 255, 255, 255, 255]
}

fn buf(w: u16, h: u16) -> Buffer {
    Buffer::empty(Rect::new(0, 0, w, h))
}

#[test]
fn halfblock_packs_two_rows_into_one_cell() {
    let mut b = buf(2, 1);
    rasterize_halfblock(&quad(), 2, 2, &mut b, 0, 0);
    assert_eq!(b[(0, 0)].symbol(), "▀");
    assert_eq!(b[(0, 0)].fg, Color::Rgb(255, 0, 0));
    assert_eq!(b[(0, 0)].bg, Color::Rgb(0, 0, 255));
    assert_eq!(b[(1, 0)].fg, Color::Rgb(0, 255, 0));
    assert_eq!(b[(1, 0)].bg, Color::Rgb(255, 255, 255));
}

#[test]
fn halfblock_transparent_bottom_uses_upper_block_no_bg() {
    let rgba = vec![255, 0, 0, 255, 0, 0, 0, 0];
    let mut b = buf(1, 1);
    rasterize_halfblock(&rgba, 1, 2, &mut b, 0, 0);
    assert_eq!(b[(0, 0)].symbol(), "▀");
    assert_eq!(b[(0, 0)].fg, Color::Rgb(255, 0, 0));
    assert_eq!(b[(0, 0)].bg, Color::Reset);
}

#[test]
fn halfblock_transparent_top_uses_lower_block() {
    let rgba = vec![0, 0, 0, 0, 0, 0, 255, 255];
    let mut b = buf(1, 1);
    rasterize_halfblock(&rgba, 1, 2, &mut b, 0, 0);
    assert_eq!(b[(0, 0)].symbol(), "▄");
    assert_eq!(b[(0, 0)].fg, Color::Rgb(0, 0, 255));
}

#[test]
fn halfblock_fully_transparent_cell_untouched() {
    let rgba = vec![0, 0, 0, 0, 0, 0, 0, 0];
    let mut b = buf(1, 1);
    rasterize_halfblock(&rgba, 1, 2, &mut b, 0, 0);
    assert_eq!(b[(0, 0)].symbol(), " ");
}

#[test]
fn halfblock_clips_outside_buffer() {
    let mut b = buf(1, 1);
    rasterize_halfblock(&quad(), 2, 2, &mut b, 5, 5);
    assert_eq!(b[(0, 0)].symbol(), " ");
}

#[test]
fn braille_sets_correct_dot_bits() {
    let mut rgba = vec![0u8; 2 * 4 * 4];
    let set = |v: &mut Vec<u8>, x: usize, y: usize, c: [u8; 4]| {
        let i = (y * 2 + x) * 4;
        v[i..i + 4].copy_from_slice(&c);
    };
    set(&mut rgba, 0, 0, [255, 0, 0, 255]);
    set(&mut rgba, 1, 0, [255, 0, 0, 255]);
    let mut b = buf(1, 1);
    rasterize_braille(&rgba, 2, 4, &mut b, 0, 0);
    assert_eq!(b[(0, 0)].symbol(), "\u{2809}");
    assert_eq!(b[(0, 0)].fg, Color::Rgb(255, 0, 0));
}

#[test]
fn braille_empty_cell_untouched() {
    let rgba = vec![0u8; 2 * 4 * 4];
    let mut b = buf(1, 1);
    rasterize_braille(&rgba, 2, 4, &mut b, 0, 0);
    assert_eq!(b[(0, 0)].symbol(), " ");
}

#[test]
fn braille_bottom_row_uses_dots_7_and_8() {
    let mut rgba = vec![0u8; 2 * 4 * 4];
    let i03 = (3 * 2) * 4;
    let i13 = (3 * 2 + 1) * 4;
    rgba[i03..i03 + 4].copy_from_slice(&[10, 20, 30, 255]);
    rgba[i13..i13 + 4].copy_from_slice(&[10, 20, 30, 255]);
    let mut b = buf(1, 1);
    rasterize_braille(&rgba, 2, 4, &mut b, 0, 0);
    assert_eq!(b[(0, 0)].symbol(), "\u{28C0}");
}

#[test]
fn cells_are_listed_in_row_major_order_and_clipped() {
    let rgba: Vec<u8> = (0..3 * 4).flat_map(|i| [i as u8, 0, 0, 255]).collect();
    let area = CellRect { x: 1, y: 0, width: 2, height: 2 };
    let paints = halfblock_cells(&rgba, 3, 4, 0, 0, area);
    let pos: Vec<(u16, u16)> = paints.iter().map(|p| (p.x, p.y)).collect();
    assert_eq!(pos, vec![(1, 0), (2, 0), (1, 1), (2, 1)]);
    assert_eq!(paints[2].fg, (7, 0, 0));
    assert_eq!(paints[2].bg, Some((10, 0, 0)));
    let edge = halfblock_cells(&rgba, 3, 4, 65535, 0, CellRect { x: 0, y: 0, width: 65535, height: 10 });
    assert!(edge.is_empty(), "the right edge saturates at 65535");
}

#[test]
fn braille_colour_is_mean_of_lit_dots() {
    let mut rgba = vec![0u8; 3 * 4 * 4];
    let put = |v: &mut Vec<u8>, x: usize, y: usize, c: [u8; 4]| {
        let i = (y * 3 + x) * 4;
        v[i..i + 4].copy_from_slice(&c);
    };
    put(&mut rgba, 0, 1, [10, 0, 100, 255]);
    put(&mut rgba, 1, 2, [21, 3, 0, 255]);
    put(&mut rgba, 2, 3, [9, 9, 9, 127]);
    put(&mut rgba, 2, 0, [50, 60, 70, 255]);
    let paints = braille_cells(&rgba, 3, 4, 2, 3, CellRect { x: 0, y: 0, width: 80, height: 24 });
    assert_eq!(paints.len(), 2);
    assert_eq!((paints[0].x, paints[0].y), (2, 3));
    assert_eq!(paints[0].symbol, '\u{2822}');
    assert_eq!(paints[0].fg, (15, 1, 50));
    assert_eq!((paints[1].x, paints[1].symbol, paints[1].fg), (3, '\u{2801}', (50, 60, 70)));
}
