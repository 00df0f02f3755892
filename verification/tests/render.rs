use robin::css::Color;
use robin::render::{blend, blit_coverage, Canvas};

#[test]
fn fill_is_clipped_to_bounds() {
    let mut c = Canvas::new(4, 4, Color::rgb(255, 255, 255));
    // An area partly off the right/bottom edge shouldn't panic.
    c.fill_area(2, 2, 12, 12, Color::rgb(0, 0, 0));
    assert_eq!(c.pixels[0], Color::rgb(255, 255, 255)); // top-left untouched
    assert_eq!(c.pixels[3 * 4 + 3], Color::rgb(0, 0, 0)); // bottom-right filled
    assert_eq!(c.pixels[1 * 4 + 3], Color::rgb(255, 255, 255));
}

#[test]
fn alpha_blends_halfway() {
    let mut c = Canvas::new(1, 1, Color::rgb(0, 0, 0));
    c.fill_area(0, 0, 1, 1, Color { r: 255, g: 255, b: 255, a: 128 });
    let p = c.pixels[0];
    assert!((120..=135).contains(&p.r), "got {}", p.r);
}

#[test]
fn blend_rounds_to_nearest() {
    let src = Color { r: 255, g: 100, b: 0, a: 128 };
    let dst = Color { r: 0, g: 200, b: 255, a: 255 };
    // (255*128)/255 = 128; (100*128 + 200*127)/255 = 149.8; (255*127)/255 = 127
    assert_eq!(blend(src, dst), Color { r: 128, g: 150, b: 127, a: 255 });
    let opaque = Color::rgb(1, 2, 3);
    assert_eq!(blend(opaque, dst), opaque);
}

#[test]
fn transparent_fill_changes_nothing() {
    let mut c = Canvas::new(2, 2, Color::rgb(9, 9, 9));
    c.fill_area(0, 0, 2, 2, Color::transparent());
    assert!(c.pixels.iter().all(|p| *p == Color::rgb(9, 9, 9)));
}

#[test]
fn blend_pixel_ignores_points_off_the_canvas() {
    let mut c = Canvas::new(2, 2, Color::rgb(255, 255, 255));
    c.blend_pixel(5, 0, Color::rgb(0, 0, 0));
    c.blend_pixel(1, 1, Color::rgb(0, 0, 0));
    assert_eq!(c.pixels[3], Color::rgb(0, 0, 0));
    assert_eq!(c.pixels.iter().filter(|p| **p == Color::rgb(0, 0, 0)).count(), 1);
}

#[test]
fn buffers_in_both_formats() {
    let mut c = Canvas::new(2, 1, Color::rgb(1, 2, 3));
    c.blend_pixel(1, 0, Color::rgb(0xaa, 0xbb, 0xcc));
    assert_eq!(c.to_rgba_bytes(), vec![1, 2, 3, 255, 0xaa, 0xbb, 0xcc, 255]);
    assert_eq!(c.to_argb_u32(), vec![0x010203, 0xaabbcc]);
}

#[test]
fn crops_rows_and_clamps() {
    let mut c = Canvas::new(2, 3, Color::rgb(0, 0, 0));
    c.fill_area(0, 1, 2, 2, Color::rgb(255, 0, 0));
    let band = c.cropped(1, 1);
    assert_eq!((band.width, band.height), (2, 1));
    assert_eq!(band.pixels, vec![Color::rgb(255, 0, 0); 2]);
    let rest = c.cropped(2, 10);
    assert_eq!(rest.height, 1);
    let at_least_one = c.cropped(0, 0);
    assert_eq!(at_least_one.height, 1);
}

#[test]
fn crop_past_the_bottom_keeps_the_last_row() {
    let mut c = Canvas::new(2, 3, Color::rgb(0, 0, 0));
    c.fill_area(0, 2, 2, 3, Color::rgb(0, 0, 255));
    let last = c.cropped(10, 4);
    assert_eq!((last.width, last.height), (2, 1));
    assert_eq!(last.pixels, vec![Color::rgb(0, 0, 255); 2]);
    let at_end = c.cropped(3, 1);
    assert_eq!(at_end.pixels, vec![Color::rgb(0, 0, 255); 2]);
}

#[test]
fn glyph_coverage_scales_alpha() {
    let mut c = Canvas::new(3, 2, Color::rgb(255, 255, 255));
    let coverage = [255u8, 0, 128, 0];
    blit_coverage(&mut c, &coverage, 2, 2, 1, 0, Color::rgb(0, 0, 0));
    assert_eq!(c.pixels[1], Color::rgb(0, 0, 0));
    assert_eq!(c.pixels[2], Color::rgb(255, 255, 255));
    // 128 coverage: alpha 128 over white gives 127.
    assert_eq!(c.pixels[3 + 1], Color::rgb(127, 127, 127));
    assert_eq!(c.pixels[0], Color::rgb(255, 255, 255));
    // Off-canvas parts are dropped.
    blit_coverage(&mut c, &coverage, 2, 2, -1, -1, Color::rgb(0, 0, 0));
}
