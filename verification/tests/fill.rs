use wasabi::bitmap::Bitmap;
use wasabi::bitmap::MemoryBitmap;
use wasabi::graphics::fill_rect;

fn surface(w: i64, h: i64, stride: i64) -> MemoryBitmap {
    MemoryBitmap::new(w, h, stride, 4).unwrap()
}

fn snapshot(b: &MemoryBitmap) -> Vec<u32> {
    let mut v = Vec::new();
    for y in 0..b.height() {
        for x in 0..b.width().min(b.pixels_per_line()) {
            v.push(b.get_pixel(x, y));
        }
    }
    v
}

#[test]
fn fill_covers_exactly_the_rectangle() {
    let mut b = surface(6, 5, 6);
    assert!(fill_rect(&mut b, 0x123456, 2, 1, 3, 2).is_ok());
    for y in 0..5 {
        for x in 0..6 {
            let inside = (2..5).contains(&x) && (1..3).contains(&y);
            let want = if inside { 0x123456 } else { 0 };
            assert_eq!(b.get_pixel(x, y), want, "at ({x}, {y})");
        }
    }
}

#[test]
fn fill_with_any_out_of_range_corner_changes_nothing() {
    let mut b = surface(6, 5, 6);
    assert!(fill_rect(&mut b, 1, 1, 1, 3, 3).is_ok());
    let before = snapshot(&b);
    // Top-left corner out, on each axis.
    assert!(fill_rect(&mut b, 9, -1, 0, 2, 2).is_err());
    assert!(fill_rect(&mut b, 9, 0, -1, 2, 2).is_err());
    assert!(fill_rect(&mut b, 9, 6, 0, 2, 2).is_err());
    assert!(fill_rect(&mut b, 9, 0, 5, 2, 2).is_err());
    // Bottom-right corner out, on each axis.
    assert!(fill_rect(&mut b, 9, 4, 0, 3, 2).is_err());
    assert!(fill_rect(&mut b, 9, 0, 3, 2, 3).is_err());
    assert_eq!(snapshot(&b), before);
}

#[test]
fn fill_stops_at_the_visible_width_not_the_stride() {
    // Stride 8, width 6: a fill touching columns 6 and 7 must fail even
    // though the buffer has those slots.
    let mut b = surface(6, 4, 8);
    assert!(fill_rect(&mut b, 9, 4, 0, 3, 2).is_err());
    assert!(fill_rect(&mut b, 9, 4, 0, 2, 2).is_ok());
}

#[test]
fn empty_fill_succeeds_away_from_the_origin_column() {
    // A zero-width rectangle validates the column left of its corner, so it
    // succeeds anywhere but at column zero, and writes nothing.
    let mut b = surface(4, 4, 4);
    assert!(fill_rect(&mut b, 9, 1, 1, 0, 2).is_ok());
    assert!(fill_rect(&mut b, 9, 0, 1, 0, 2).is_err());
    for y in 0..4 {
        for x in 0..4 {
            assert_eq!(b.get_pixel(x, y), 0);
        }
    }
}

#[test]
fn fill_whole_surface() {
    let mut b = surface(3, 3, 3);
    assert!(fill_rect(&mut b, 0xffffff, 0, 0, 3, 3).is_ok());
    for y in 0..3 {
        for x in 0..3 {
            assert_eq!(b.get_pixel(x, y), 0xffffff);
        }
    }
}
