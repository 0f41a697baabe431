use tarmac::alpha_bleed::alpha_bleed;
use tarmac::image::{Image, Pixel};

fn red_block_canvas() -> Image {
    let mut block = Image::new_empty_rgba8((2, 2));
    for y in 0..2 {
        for x in 0..2 {
            block.set_pixel((x, y), Pixel::new(255, 0, 0, 255));
        }
    }
    let mut canvas = Image::new_empty_rgba8((4, 4));
    canvas.blit(&block, (1, 1));
    canvas
}

#[test]
fn bleeding_a_red_block_colours_its_border() {
    let mut canvas = red_block_canvas();
    alpha_bleed(&mut canvas);

    for y in 0..4 {
        for x in 0..4 {
            let inside = (1..3).contains(&x) && (1..3).contains(&y);
            if inside {
                assert_eq!(canvas.get_pixel((x, y)), Pixel::new(255, 0, 0, 255));
            } else {
                assert_eq!(canvas.get_pixel((x, y)), Pixel::new(255, 0, 0, 0));
            }
        }
    }
}

#[test]
fn bleeding_twice_changes_nothing_more() {
    let mut canvas = Image::new_empty_rgba8((7, 5));
    canvas.set_pixel((1, 1), Pixel::new(200, 10, 30, 255));
    canvas.set_pixel((5, 3), Pixel::new(0, 120, 240, 17));
    alpha_bleed(&mut canvas);
    let once = canvas.as_bytes().to_vec();
    alpha_bleed(&mut canvas);
    assert_eq!(canvas.as_bytes(), &once[..]);
}

#[test]
fn colours_are_averaged_ring_by_ring() {
    let mut canvas = Image::new_empty_rgba8((3, 1));
    canvas.set_pixel((0, 0), Pixel::new(100, 0, 0, 255));
    canvas.set_pixel((2, 0), Pixel::new(0, 200, 0, 255));
    alpha_bleed(&mut canvas);
    assert_eq!(canvas.get_pixel((1, 0)), Pixel::new(50, 100, 0, 0));

    let mut strip = Image::new_empty_rgba8((3, 1));
    strip.set_pixel((0, 0), Pixel::new(90, 30, 60, 255));
    alpha_bleed(&mut strip);
    assert_eq!(strip.get_pixel((1, 0)), Pixel::new(90, 30, 60, 0));
    assert_eq!(strip.get_pixel((2, 0)), Pixel::new(90, 30, 60, 0));
}

#[test]
fn fully_transparent_image_is_unchanged() {
    let mut canvas = Image::new_rgba8((2, 2), vec![7, 8, 9, 0, 1, 2, 3, 0, 4, 5, 6, 0, 0, 0, 0, 0]);
    alpha_bleed(&mut canvas);
    assert_eq!(canvas.as_bytes(), &[7, 8, 9, 0, 1, 2, 3, 0, 4, 5, 6, 0, 0, 0, 0, 0]);
}

#[test]
fn empty_image_is_a_no_op() {
    let mut canvas = Image::new_empty_rgba8((0, 0));
    alpha_bleed(&mut canvas);
    assert_eq!(canvas.size(), (0, 0));
    let mut row = Image::new_empty_rgba8((5, 0));
    alpha_bleed(&mut row);
    assert!(row.as_bytes().is_empty());
}

#[test]
fn partly_transparent_pixels_are_not_bled() {
    let mut canvas = Image::new_empty_rgba8((2, 1));
    canvas.set_pixel((0, 0), Pixel::new(10, 20, 30, 1));
    canvas.set_pixel((1, 0), Pixel::new(0, 0, 0, 2));
    alpha_bleed(&mut canvas);
    assert_eq!(canvas.get_pixel((0, 0)), Pixel::new(10, 20, 30, 1));
    assert_eq!(canvas.get_pixel((1, 0)), Pixel::new(0, 0, 0, 2));
}
