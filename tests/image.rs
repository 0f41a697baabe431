use tarmac::image::{Image, ImageFormat, Pixel};

#[test]
fn blit_zero() {
    let source = Image::new_empty_rgba8((17, 20));
    let mut target = Image::new_empty_rgba8((17, 20));

    target.blit(&source, (0, 0));
}

#[test]
fn blit_corner() {
    let source = Image::new_empty_rgba8((4, 4));
    let mut target = Image::new_empty_rgba8((8, 8));

    target.blit(&source, (4, 4));
}

#[test]
fn get_pixel() {
    let source = Image::new_empty_rgba8((4, 4));

    assert_eq!(source.get_pixel((0, 0)), Pixel::new(0, 0, 0, 0));
    assert_eq!(source.get_pixel((3, 3)), Pixel::new(0, 0, 0, 0));
}

#[test]
fn set_pixel() {
    let mut source = Image::new_empty_rgba8((3, 3));

    source.set_pixel((0, 0), Pixel::new(1, 2, 3, 4));
    assert_eq!(source.get_pixel((0, 0)), Pixel::new(1, 2, 3, 4));

    source.set_pixel((2, 2), Pixel::new(5, 6, 7, 8));
    assert_eq!(source.get_pixel((2, 2)), Pixel::new(5, 6, 7, 8));

    let data = source.as_bytes();
    assert_eq!(&data[0..4], &[1, 2, 3, 4]);
    assert_eq!(&data[(data.len() - 4)..], &[5, 6, 7, 8]);
}

fn pattern_image(size: (u32, u32), seed: u8) -> Image {
    let mut data = Vec::new();
    for i in 0..(size.0 * size.1 * 4) {
        data.push((i as u8).wrapping_mul(7).wrapping_add(seed));
    }
    Image::new_rgba8(size, data)
}

#[test]
fn blit_into_bottom_right_quadrant() {
    let source = pattern_image((4, 4), 3);
    let mut canvas = pattern_image((8, 8), 100);
    let before = pattern_image((8, 8), 100);

    canvas.blit(&source, (4, 4));

    for y in 0..8 {
        for x in 0..8 {
            if x >= 4 && y >= 4 {
                assert_eq!(canvas.get_pixel((x, y)), source.get_pixel((x - 4, y - 4)));
            } else {
                assert_eq!(canvas.get_pixel((x, y)), before.get_pixel((x, y)));
            }
        }
    }
}

#[test]
fn blit_overwrites_alpha_without_blending() {
    let mut canvas = Image::new_empty_rgba8((2, 1));
    canvas.set_pixel((1, 0), Pixel::new(9, 9, 9, 255));
    let mut source = Image::new_empty_rgba8((1, 1));
    source.set_pixel((0, 0), Pixel::new(1, 2, 3, 0));

    canvas.blit(&source, (1, 0));

    assert_eq!(canvas.get_pixel((1, 0)), Pixel::new(1, 2, 3, 0));
    assert_eq!(canvas.get_pixel((0, 0)), Pixel::new(0, 0, 0, 0));
}

#[test]
fn new_rgba8_keeps_bytes_and_size() {
    let image = Image::new_rgba8((1, 2), vec![1, 2, 3, 4, 5, 6, 7, 8]);
    assert_eq!(image.size(), (1, 2));
    assert_eq!(image.get_pixel((0, 1)), Pixel::new(5, 6, 7, 8));
    assert_eq!(image.as_bytes().len(), 8);
}

#[test]
fn rgba8_stride_is_four() {
    assert_eq!(ImageFormat::Rgba8.stride(), 4);
}
