use meter_panel::framebuffer::{Framebuffer, Image, Raster};
use meter_panel::geometry::Rect;
use meter_panel::pixel::Rgba;

const RED: Rgba = Rgba { r: 255, g: 0, b: 0, a: 255 };
const BLUE: Rgba = Rgba { r: 0, g: 0, b: 255, a: 255 };
const GREY: Rgba = Rgba { r: 100, g: 100, b: 100, a: 255 };

fn plain(width: usize, height: usize, colour: Rgba) -> Image {
    Image { width, height, pixels: vec![colour; width * height] }
}

#[test]
fn blend_without_coverage_keeps_the_pixel() {
    assert_eq!(GREY.blend(RED, 0), GREY);
    assert_eq!(GREY.blend(Rgba::new(255, 0, 0, 0), 255), GREY);
}

#[test]
fn blend_with_full_coverage_takes_opaque_ink() {
    assert_eq!(GREY.blend(RED, 255), RED);
    assert_eq!(Rgba::clear().blend(BLUE, 255), BLUE);
}

#[test]
fn blend_mixes_in_proportion() {
    let under = Rgba::new(0, 100, 200, 255);
    let ink = Rgba::new(255, 100, 0, 255);
    // opacity 128 * 255 / 255 = 128
    assert_eq!(under.blend(ink, 128), Rgba::new(128, 100, 99, 255));
    // opacity 255 * 51 / 255 = 51 on a blank pixel
    assert_eq!(
        Rgba::clear().blend(Rgba::new(255, 255, 255, 255), 51),
        Rgba::new(51, 51, 51, 51)
    );
    // ink of half opacity: 128 * 255 / 255 = 128
    assert_eq!(
        Rgba::new(0, 0, 0, 255).blend(Rgba::new(200, 100, 50, 128), 255),
        Rgba::new(100, 50, 25, 255)
    );
}

#[test]
fn a_new_framebuffer_is_blank() {
    let fb = Framebuffer::new(4, 3).unwrap();
    assert_eq!(fb.width(), 4);
    assert_eq!(fb.height(), 3);
    assert_eq!(fb.area(), Rect::new(0, 0, 4, 3));
    assert_eq!(fb.pixel(0, 0), Some(Rgba::clear()));
    assert_eq!(fb.pixel(3, 2), Some(Rgba::clear()));
    assert_eq!(fb.base_pixel(3, 2), Some(Rgba::clear()));
    assert_eq!(fb.pixel(4, 0), None);
    assert_eq!(fb.pixel(0, 3), None);
    assert_eq!(fb.region(Rect::new(0, 0, 4, 3)).len(), 12);
}

#[test]
fn a_framebuffer_too_large_is_refused() {
    assert!(Framebuffer::new(usize::MAX, 2).is_none());
    assert!(Framebuffer::new(0, 7).is_some());
}

#[test]
fn install_copies_the_picture_to_both_buffers() {
    let mut fb = Framebuffer::new(4, 3).unwrap();
    let mut image = plain(2, 2, GREY);
    image.pixels[3] = BLUE;
    assert_eq!(fb.install(&image), Some(Rect::new(0, 0, 2, 2)));
    assert_eq!(fb.pixel(0, 0), Some(GREY));
    assert_eq!(fb.pixel(1, 1), Some(BLUE));
    assert_eq!(fb.base_pixel(1, 1), Some(BLUE));
    assert_eq!(fb.pixel(2, 0), Some(Rgba::clear()));
    assert_eq!(fb.base_pixel(0, 2), Some(Rgba::clear()));
}

#[test]
fn install_leaves_out_what_lies_beyond_the_display() {
    let mut fb = Framebuffer::new(2, 2).unwrap();
    let mut image = plain(3, 4, GREY);
    image.pixels[4] = RED; // column 1 of row 1
    assert_eq!(fb.install(&image), Some(Rect::new(0, 0, 2, 2)));
    assert_eq!(fb.pixel(1, 1), Some(RED));
    assert_eq!(fb.pixel(0, 1), Some(GREY));
    assert_eq!(fb.region(fb.area()), vec![GREY, GREY, GREY, RED]);
}

#[test]
fn install_refuses_a_picture_with_the_wrong_number_of_pixels() {
    let mut fb = Framebuffer::new(2, 2).unwrap();
    let image = Image { width: 2, height: 2, pixels: vec![GREY; 3] };
    assert_eq!(fb.install(&image), None);
    assert_eq!(fb.pixel(0, 0), Some(Rgba::clear()));
}

#[test]
fn paint_lays_ink_where_the_raster_covers() {
    let mut fb = Framebuffer::new(4, 3).unwrap();
    fb.install(&plain(4, 3, GREY));
    let raster = Raster { rect: Rect::new(1, 1, 3, 3), coverage: vec![255, 0, 0, 255] };
    assert!(fb.paint(&raster, RED));
    assert_eq!(fb.pixel(1, 1), Some(RED));
    assert_eq!(fb.pixel(2, 1), Some(GREY));
    assert_eq!(fb.pixel(1, 2), Some(GREY));
    assert_eq!(fb.pixel(2, 2), Some(RED));
    assert_eq!(fb.pixel(0, 0), Some(GREY));
    assert_eq!(fb.base_pixel(1, 1), Some(GREY));
}

#[test]
fn paint_leaves_out_what_lies_beyond_the_display() {
    let mut fb = Framebuffer::new(3, 2).unwrap();
    fb.install(&plain(3, 2, GREY));
    let raster = Raster { rect: Rect::new(2, 1, 4, 3), coverage: vec![255, 255, 255, 255] };
    assert!(fb.paint(&raster, BLUE));
    assert_eq!(fb.pixel(2, 1), Some(BLUE));
    assert_eq!(fb.pixel(1, 1), Some(GREY));
    assert_eq!(fb.pixel(2, 0), Some(GREY));
}

#[test]
fn paint_refuses_a_raster_with_the_wrong_number_of_values() {
    let mut fb = Framebuffer::new(3, 2).unwrap();
    let raster = Raster { rect: Rect::new(0, 0, 2, 2), coverage: vec![255; 3] };
    assert!(!raster.is_valid());
    assert!(!fb.paint(&raster, BLUE));
    assert_eq!(fb.pixel(0, 0), Some(Rgba::clear()));
    let none = Raster { rect: Rect::empty(), coverage: Vec::new() };
    assert!(none.is_valid());
    assert!(fb.paint(&none, BLUE));
}

#[test]
fn restore_takes_pixels_back_from_the_background() {
    let mut fb = Framebuffer::new(4, 3).unwrap();
    fb.install(&plain(4, 3, GREY));
    let raster = Raster { rect: Rect::new(0, 0, 4, 3), coverage: vec![255; 12] };
    assert!(fb.paint(&raster, RED));
    fb.restore(Rect::new(1, 0, 3, 2));
    assert_eq!(fb.pixel(1, 0), Some(GREY));
    assert_eq!(fb.pixel(2, 1), Some(GREY));
    assert_eq!(fb.pixel(0, 0), Some(RED));
    assert_eq!(fb.pixel(3, 1), Some(RED));
    assert_eq!(fb.pixel(1, 2), Some(RED));
    fb.restore(Rect::new(0, 0, 100, 100));
    assert_eq!(fb.region(fb.area()), vec![GREY; 12]);
}

#[test]
fn region_hands_out_rows_of_the_rectangle() {
    let mut fb = Framebuffer::new(3, 3).unwrap();
    let mut image = plain(3, 3, GREY);
    image.pixels[4] = RED;
    image.pixels[5] = BLUE;
    image.pixels[8] = BLUE;
    fb.install(&image);
    assert_eq!(fb.region(Rect::new(1, 1, 3, 3)), vec![RED, BLUE, GREY, BLUE]);
    assert_eq!(fb.region(Rect::new(1, 1, 9, 2)), vec![RED, BLUE]);
    assert_eq!(fb.region(Rect::new(5, 5, 9, 9)), Vec::new());
    assert_eq!(fb.region(Rect::empty()), Vec::new());
}
