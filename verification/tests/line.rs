use wasabi::bitmap::Bitmap;
use wasabi::bitmap::MemoryBitmap;
use wasabi::graphics::draw_line;

const C: u32 = 0xffffff;

fn surface(w: i64, h: i64) -> MemoryBitmap {
    MemoryBitmap::new(w, h, w, 4).unwrap()
}

fn lit_points(b: &MemoryBitmap) -> Vec<(i64, i64)> {
    let mut v = Vec::new();
    for y in 0..b.height() {
        for x in 0..b.width() {
            if b.get_pixel(x, y) == C {
                v.push((x, y));
            }
        }
    }
    v
}

#[test]
fn degenerate_line_draws_exactly_its_point() {
    let mut b = surface(8, 8);
    assert!(draw_line(&mut b, C, 3, 4, 3, 4).is_ok());
    assert_eq!(lit_points(&b), vec![(3, 4)]);
}

#[test]
fn horizontal_line_excludes_its_final_endpoint() {
    let mut b = surface(8, 8);
    assert!(draw_line(&mut b, C, 1, 2, 5, 2).is_ok());
    assert_eq!(lit_points(&b), vec![(1, 2), (2, 2), (3, 2), (4, 2)]);
}

#[test]
fn horizontal_line_drawn_right_to_left() {
    let mut b = surface(8, 8);
    assert!(draw_line(&mut b, C, 5, 2, 1, 2).is_ok());
    assert_eq!(lit_points(&b), vec![(2, 2), (3, 2), (4, 2), (5, 2)]);
}

#[test]
fn vertical_line_excludes_its_final_endpoint() {
    let mut b = surface(8, 8);
    assert!(draw_line(&mut b, C, 2, 1, 2, 5).is_ok());
    assert_eq!(lit_points(&b), vec![(2, 1), (2, 2), (2, 3), (2, 4)]);
}

#[test]
fn diagonal_line_steps_both_axes() {
    let mut b = surface(8, 8);
    assert!(draw_line(&mut b, C, 0, 0, 3, 3).is_ok());
    assert_eq!(lit_points(&b), vec![(0, 0), (1, 1), (2, 2)]);
}

#[test]
fn shallow_line_rounds_its_minor_axis() {
    let mut b = surface(8, 8);
    assert!(draw_line(&mut b, C, 0, 0, 5, 2).is_ok());
    // Minor offsets are 2 * ia / 5 rounded to nearest, ties up.
    assert_eq!(lit_points(&b), vec![(0, 0), (1, 0), (2, 1), (3, 1), (4, 2)]);
}

#[test]
fn steep_line_walks_the_y_axis() {
    let mut b = surface(8, 8);
    assert!(draw_line(&mut b, C, 0, 0, 2, 5).is_ok());
    assert_eq!(lit_points(&b), vec![(0, 0), (0, 1), (1, 2), (1, 3), (2, 4)]);
}

#[test]
fn out_of_range_endpoint_fails_with_no_change() {
    let mut b = surface(8, 8);
    assert!(draw_line(&mut b, C, 0, 0, 8, 0).is_err());
    assert!(draw_line(&mut b, C, -1, 0, 3, 0).is_err());
    assert!(draw_line(&mut b, C, 0, 0, 0, 8).is_err());
    assert!(draw_line(&mut b, C, 0, -2, 0, 3).is_err());
    assert_eq!(lit_points(&b), vec![]);
}
