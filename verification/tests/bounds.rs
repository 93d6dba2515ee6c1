use wasabi::bitmap::Bitmap;
use wasabi::bitmap::MemoryBitmap;
use wasabi::graphics::draw_point;

fn surface(w: i64, h: i64, stride: i64) -> MemoryBitmap {
    MemoryBitmap::new(w, h, stride, 4).unwrap()
}

#[test]
fn x_range_is_bounded_by_width_when_stride_is_wider() {
    let b = surface(10, 5, 12);
    assert!(b.is_in_x_range(0));
    assert!(b.is_in_x_range(9));
    assert!(!b.is_in_x_range(10));
    assert!(!b.is_in_x_range(11));
    assert!(!b.is_in_x_range(-1));
}

#[test]
fn x_range_is_bounded_by_stride_when_stride_is_narrower() {
    let b = surface(10, 5, 8);
    assert!(b.is_in_x_range(7));
    assert!(!b.is_in_x_range(8));
    assert!(!b.is_in_x_range(9));
}

#[test]
fn y_range_is_bounded_by_height_alone() {
    let b = surface(10, 5, 8);
    assert!(b.is_in_y_range(0));
    assert!(b.is_in_y_range(4));
    assert!(!b.is_in_y_range(5));
    assert!(!b.is_in_y_range(-1));
    // A tall stride never constrains the height.
    let b2 = surface(4, 9, 100);
    assert!(b2.is_in_y_range(8));
    assert!(!b2.is_in_y_range(9));
}

#[test]
fn geometry_accessors_report_construction_parameters() {
    let b = surface(10, 5, 12);
    assert_eq!(b.width(), 10);
    assert_eq!(b.height(), 5);
    assert_eq!(b.pixels_per_line(), 12);
    assert_eq!(b.bytes_per_pixel(), 4);
}

#[test]
fn construction_rejects_bad_geometry() {
    assert!(MemoryBitmap::new(-1, 5, 8, 4).is_none());
    assert!(MemoryBitmap::new(5, -1, 8, 4).is_none());
    assert!(MemoryBitmap::new(5, 5, -8, 4).is_none());
    assert!(MemoryBitmap::new(0, 0, 0, 4).is_some());
}

#[test]
fn draw_point_writes_inside_and_rejects_outside() {
    let mut b = surface(4, 4, 4);
    assert!(draw_point(&mut b, 0xabcdef, 2, 3).is_ok());
    assert_eq!(b.get_pixel(2, 3), 0xabcdef);
    assert_eq!(b.get_pixel(2, 2), 0);
    assert!(draw_point(&mut b, 0xabcdef, 4, 0).is_err());
    assert!(draw_point(&mut b, 0xabcdef, 0, 4).is_err());
    assert!(draw_point(&mut b, 0xabcdef, -1, 0).is_err());
}

#[test]
fn draw_point_in_row_padding_is_rejected() {
    // Column 5 exists in the buffer (stride 8) but is outside the visible
    // width, so the checked draw refuses it.
    let mut b = surface(5, 3, 8);
    assert!(draw_point(&mut b, 1, 5, 0).is_err());
    assert!(draw_point(&mut b, 1, 4, 0).is_ok());
}
