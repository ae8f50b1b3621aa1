use cantucci::image::{Color, PixelImage};

#[test]
fn colors_pack_into_u32() {
    assert_eq!(Color { r: 0x12, g: 0x34, b: 0x56 }.to_u32(), 0x123456);
    assert_eq!(Color::white().to_u32(), 0xffffff);
    assert_eq!(Color::black().to_u32(), 0);
    assert_eq!(Color::red().to_u32(), 0xff0000);
    assert_eq!(Color::green().to_u32(), 0x00ff00);
    assert_eq!(Color::blue().to_u32(), 0x0000ff);
    assert_eq!(Color::greyscale(0x80).to_u32(), 0x808080);
}

#[test]
fn monochrome_image() {
    let img = PixelImage::monochrome(3, 2, Color::greyscale(7));
    assert_eq!(img.to_u32_buffer(), vec![0x070707; 6]);
    assert!(PixelImage::monochrome(0, 5, Color::white()).to_u32_buffer().is_empty());
}

#[test]
fn image_from_pixels_is_line_by_line() {
    let img = PixelImage::from_pixels(3, 2, |x, y| Color { r: x as u8, g: y as u8, b: 0 });
    assert_eq!(img.to_u32_buffer(), vec![
        0x000000, 0x010000, 0x020000,
        0x000100, 0x010100, 0x020100,
    ]);
}
