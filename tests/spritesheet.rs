use tarmac::config::GroupSpritesheetConfig;
use tarmac::id::IdGenerator;
use tarmac::image::{Image, Pixel};
use tarmac::packer::PackError;
use tarmac::spritesheet::{pack_images, ImageSlice};

fn solid(size: (u32, u32), pixel: Pixel) -> Image {
    let mut image = Image::new_empty_rgba8(size);
    for y in 0..size.1 {
        for x in 0..size.0 {
            image.set_pixel((x, y), pixel);
        }
    }
    image
}

#[test]
fn sources_are_blitted_at_their_slices() {
    let red = Pixel::new(255, 0, 0, 255);
    let blue = Pixel::new(0, 0, 255, 128);
    let images = vec![solid((10, 4), red), solid((20, 30), blue)];
    let mut ids = IdGenerator::new();
    let config = GroupSpritesheetConfig::default();

    let sheets = pack_images(&images, &mut ids, &config).unwrap();

    assert_eq!(sheets.len(), 1);
    let sheet = &sheets[0];
    assert_eq!(sheet.image.size(), (128, 128));
    let slices = sheet.slices();
    assert_eq!(slices.len(), 2);
    // The larger image is placed first, at the origin.
    assert_eq!(slices[0].0, 1);
    assert_eq!(slices[0].1.min(), (0, 0));
    assert_eq!(slices[0].1.max(), (20, 30));
    assert_eq!(slices[0].1.size(), (20, 30));
    // One pixel of padding separates it from the next one.
    assert_eq!(slices[1].0, 0);
    assert_eq!(slices[1].1.min(), (21, 0));
    assert_eq!(slices[1].1.size(), (10, 4));

    for &(index, slice) in slices {
        let (x0, y0) = slice.min();
        let (x1, y1) = slice.max();
        for y in y0..y1 {
            for x in x0..x1 {
                assert_eq!(sheet.image.get_pixel((x, y)), images[index].get_pixel((x - x0, y - y0)));
            }
        }
    }
}

#[test]
fn space_around_sources_is_bled_but_stays_transparent() {
    let images = vec![solid((3, 3), Pixel::new(10, 200, 30, 255))];
    let mut ids = IdGenerator::new();
    let sheets = pack_images(&images, &mut ids, &GroupSpritesheetConfig::default()).unwrap();
    let sheet = &sheets[0].image;
    assert_eq!(sheet.get_pixel((3, 0)), Pixel::new(10, 200, 30, 0));
    assert_eq!(sheet.get_pixel((100, 100)), Pixel::new(10, 200, 30, 0));
}

#[test]
fn sources_too_large_for_a_sheet_are_rejected() {
    let images = vec![solid((2, 2), Pixel::new(1, 1, 1, 255)), Image::new_empty_rgba8((64, 64))];
    let mut ids = IdGenerator::new();
    let config = GroupSpritesheetConfig { enabled: true, max_size: (64, 64) };
    match pack_images(&images, &mut ids, &config) {
        Err(PackError::ItemTooLarge(id)) => assert_eq!(id.as_u64(), 2),
        other => panic!("expected an error, got {:?}", other.map(|sheets| sheets.len())),
    }
}

#[test]
fn many_sources_spill_into_several_sheets() {
    let images: Vec<Image> = (0..5).map(|_| solid((100, 100), Pixel::new(5, 6, 7, 255))).collect();
    let mut ids = IdGenerator::new();
    let config = GroupSpritesheetConfig { enabled: true, max_size: (256, 256) };
    let sheets = pack_images(&images, &mut ids, &config).unwrap();
    assert_eq!(sheets.len(), 2);
    let placed: usize = sheets.iter().map(|s| s.slices().len()).sum();
    assert_eq!(placed, 5);
    let mut seen: Vec<usize> = sheets.iter().flat_map(|s| s.slices().iter().map(|e| e.0)).collect();
    seen.sort();
    assert_eq!(seen, vec![0, 1, 2, 3, 4]);
}

#[test]
fn no_sources_give_no_sheets() {
    let images: Vec<Image> = Vec::new();
    let mut ids = IdGenerator::new();
    assert!(pack_images(&images, &mut ids, &GroupSpritesheetConfig::default()).unwrap().is_empty());
}

#[test]
fn image_slice_reports_its_corners_and_size() {
    let slice = ImageSlice::new((3, 4), (10, 20));
    assert_eq!(slice.min(), (3, 4));
    assert_eq!(slice.max(), (10, 20));
    assert_eq!(slice.size(), (7, 16));
}
