use pixelsort::pixel::{append_pixel, append_pixels, read_pixel};
use pixelsort::{Pixel, PixelFormat};

#[test]
fn read_pixel_takes_three_bytes() {
    let bytes: Vec<u8> = vec![1, 2, 3, 4, 5, 6, 7];
    assert_eq!(read_pixel(&bytes, 0), Pixel::new(1, 2, 3));
    assert_eq!(read_pixel(&bytes, 1), Pixel::new(4, 5, 6));
}

#[test]
fn append_pixel_in_rgb() {
    let mut out: Vec<u8> = vec![9];
    append_pixel(&mut out, Pixel::new(1, 2, 3), PixelFormat::Rgb);
    assert_eq!(out, vec![9, 1, 2, 3]);
}

#[test]
fn append_pixel_in_rgba_adds_alpha() {
    let mut out: Vec<u8> = vec![9];
    append_pixel(&mut out, Pixel::new(1, 2, 3), PixelFormat::Rgba);
    assert_eq!(out, vec![9, 1, 2, 3, 255]);
}

#[test]
fn append_pixels_in_order() {
    let pixels = vec![Pixel::new(1, 2, 3), Pixel::new(4, 5, 6)];
    let mut rgb: Vec<u8> = Vec::new();
    append_pixels(&mut rgb, &pixels, PixelFormat::Rgb);
    assert_eq!(rgb, vec![1, 2, 3, 4, 5, 6]);
    let mut rgba: Vec<u8> = vec![0, 0];
    append_pixels(&mut rgba, &pixels, PixelFormat::Rgba);
    assert_eq!(rgba, vec![0, 0, 1, 2, 3, 255, 4, 5, 6, 255]);
    append_pixels(&mut rgba, &Vec::new(), PixelFormat::Rgba);
    assert_eq!(rgba.len(), 10);
}
