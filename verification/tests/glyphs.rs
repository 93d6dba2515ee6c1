use wasabi::bitmap::Bitmap;
use wasabi::bitmap::MemoryBitmap;
use wasabi::graphics::draw_font_fg;
use wasabi::graphics::draw_str_fg;
use wasabi::graphics::fill_rect;

const FG: u32 = 0x00ff00;
const BG: u32 = 0x101010;

/// A table with one-lit-cell glyphs: 'A' lights (0, 0), 'B' lights (2, 1),
/// 'C' lights (3, 2).
fn tiny_font() -> Vec<u8> {
    let mut t = Vec::new();
    for (code, lit_x, lit_y) in [(b"0x41", 0usize, 0usize), (b"0x42", 2, 1), (b"0x43", 3, 2)] {
        t.extend_from_slice(code);
        t.push(b'\n');
        for y in 0..16usize {
            let mut row = [b'.'; 8];
            if y == lit_y {
                row[lit_x] = b'*';
            }
            t.extend_from_slice(&row);
            t.push(b'\n');
        }
    }
    t
}

fn surface(w: i64, h: i64) -> MemoryBitmap {
    MemoryBitmap::new(w, h, w, 4).unwrap()
}

#[test]
fn glyph_paints_only_its_lit_cells() {
    let font = tiny_font();
    let mut b = surface(24, 24);
    assert!(fill_rect(&mut b, BG, 0, 0, 24, 24).is_ok());
    draw_font_fg(&mut b, 4, 5, FG, 'A', &font);
    for y in 0..24 {
        for x in 0..24 {
            let want = if (x, y) == (4, 5) { FG } else { BG };
            assert_eq!(b.get_pixel(x, y), want, "at ({x}, {y})");
        }
    }
}

#[test]
fn character_without_a_glyph_draws_nothing() {
    let font = tiny_font();
    let mut b = surface(24, 24);
    draw_font_fg(&mut b, 4, 5, FG, 'Z', &font);
    draw_font_fg(&mut b, 4, 5, FG, '\u{3042}', &font);
    for y in 0..24 {
        for x in 0..24 {
            assert_eq!(b.get_pixel(x, y), 0);
        }
    }
}

#[test]
fn glyph_cells_outside_the_surface_are_dropped() {
    let font = tiny_font();
    let mut b = surface(8, 8);
    // 'B' lights cell (2, 1); anchored at (6, 7) that cell lands at (8, 8),
    // outside the surface, so nothing is painted and nothing fails.
    draw_font_fg(&mut b, 6, 7, FG, 'B', &font);
    for y in 0..8 {
        for x in 0..8 {
            assert_eq!(b.get_pixel(x, y), 0);
        }
    }
    // Anchored at (-2, -1), the same cell lands at (0, 0).
    draw_font_fg(&mut b, -2, -1, FG, 'B', &font);
    assert_eq!(b.get_pixel(0, 0), FG);
}

#[test]
fn string_advances_eight_columns_per_character() {
    let font = tiny_font();
    let mut b = surface(24, 24);
    draw_str_fg(&mut b, 4, 5, FG, "AB", &font);
    assert_eq!(b.get_pixel(4, 5), FG);
    assert_eq!(b.get_pixel(4 + 8 + 2, 5 + 1), FG);
    let mut lit = 0;
    for y in 0..24 {
        for x in 0..24 {
            if b.get_pixel(x, y) == FG {
                lit += 1;
            }
        }
    }
    assert_eq!(lit, 2);
}

#[test]
fn characters_without_glyphs_still_take_a_cell() {
    let font = tiny_font();
    let mut b = surface(32, 24);
    draw_str_fg(&mut b, 0, 0, FG, "AZA", &font);
    assert_eq!(b.get_pixel(0, 0), FG);
    assert_eq!(b.get_pixel(16, 0), FG);
    assert_eq!(b.get_pixel(8, 0), 0);
}
