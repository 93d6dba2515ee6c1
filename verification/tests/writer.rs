use wasabi::bitmap::Bitmap;
use wasabi::bitmap::MemoryBitmap;
use wasabi::text::TextWriter;

const FG: u32 = 0xffffff;

/// A table with one-lit-cell glyphs: 'A' lights (0, 0), 'B' lights (2, 1),
/// 'C' lights (3, 2).
fn tiny_font() -> Vec<u8> {
    let mut t = Vec::new();
    for (code, lit_x, lit_y) in [(b"0x41", 0usize, 0usize), (b"0x42", 2, 1), (b"0x43", 3, 2)] {
        t.extend_from_slice(code);
        t.push(b'\n');
        for y in 0..16usize {
            let mut row = [b'.'; 8];
            if y == lit_y {
                row[lit_x] = b'*';
            }
            t.extend_from_slice(&row);
            t.push(b'\n');
        }
    }
    t
}

fn surface(w: i64, h: i64) -> MemoryBitmap {
    MemoryBitmap::new(w, h, w, 4).unwrap()
}

#[test]
fn writer_renders_at_the_cursor_and_newline_wraps() {
    let font = tiny_font();
    let mut b = surface(32, 40);
    let mut w = TextWriter::new();
    w.write_str(&mut b, &font, FG, "AB\nC");
    // 'A' is rendered at (0, 0), 'B' at (8, 0), 'C' at (0, 16); the lit
    // cells of those glyphs sit at their per-glyph offsets.
    assert_eq!(b.get_pixel(0, 0), FG);
    assert_eq!(b.get_pixel(8 + 2, 1), FG);
    assert_eq!(b.get_pixel(3, 16 + 2), FG);
    let mut lit = 0;
    for y in 0..40 {
        for x in 0..32 {
            if b.get_pixel(x, y) == FG {
                lit += 1;
            }
        }
    }
    assert_eq!(lit, 3);
    assert_eq!(w.position(), (8, 16));
}

#[test]
fn cursor_starts_at_origin_and_steps_per_character() {
    let font = tiny_font();
    let mut b = surface(32, 40);
    let mut w = TextWriter::new();
    assert_eq!(w.position(), (0, 0));
    w.write_char(&mut b, &font, FG, 'A');
    assert_eq!(w.position(), (8, 0));
    w.write_char(&mut b, &font, FG, 'Z');
    assert_eq!(w.position(), (16, 0));
    w.write_char(&mut b, &font, FG, '\n');
    assert_eq!(w.position(), (0, 16));
    w.write_char(&mut b, &font, FG, '\n');
    assert_eq!(w.position(), (0, 32));
}

#[test]
fn writer_clips_below_the_surface_without_error() {
    let font = tiny_font();
    let mut b = surface(32, 20);
    let mut w = TextWriter::new();
    w.write_str(&mut b, &font, FG, "\n\n\nABC");
    assert_eq!(w.position(), (24, 48));
    for y in 0..20 {
        for x in 0..32 {
            assert_eq!(b.get_pixel(x, y), 0);
        }
    }
}
