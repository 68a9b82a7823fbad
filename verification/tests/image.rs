use kobo_core::gfx::Tile8;
use kobo_core::image::{grayscale, tile_sheet, RgbImage};

#[test]
fn put_sets_one_pixel_inside_the_image() {
    let mut img = RgbImage::new(3, 2);
    assert_eq!(img.pixels.len(), 6);
    img.put(2, 1, [1, 2, 3]);
    img.put(3, 0, [9, 9, 9]);
    img.put(0, 2, [9, 9, 9]);
    assert_eq!(img.pixels[5], [1, 2, 3]);
    assert_eq!(img.pixels.iter().filter(|p| **p != [0, 0, 0]).count(), 1);
}

#[test]
fn sheets_lay_tiles_out_in_rows() {
    let mut a = Tile8::default();
    a.pixels[0][0] = 1;
    a.pixels[7][7] = 5;
    let mut b = Tile8::default();
    b.pixels[1][2] = 2;
    let palette = [[0, 0, 0], [10, 10, 10], [20, 20, 20]];
    let img = tile_sheet(&[a, b, a], 2, &palette);
    assert_eq!((img.width, img.height), (16, 16));
    let at = |x: u32, y: u32| img.pixels[(y * img.width + x) as usize];
    assert_eq!(at(0, 0), [10, 10, 10]);
    assert_eq!(at(7, 7), [255, 0, 255]);
    assert_eq!(at(8 + 2, 1), [20, 20, 20]);
    assert_eq!(at(0, 8), [10, 10, 10]);
    assert_eq!(at(15, 15), [0, 0, 0]);
    let single = tile_sheet(&[b], 0, &palette);
    assert_eq!((single.width, single.height), (8, 8));
    assert_eq!(tile_sheet(&[], 4, &palette).height, 0);
}

#[test]
fn grayscale_runs_from_black_to_white() {
    assert_eq!(grayscale(4), vec![[0, 0, 0], [85, 85, 85], [170, 170, 170], [255, 255, 255]]);
    assert_eq!(grayscale(1), vec![[0, 0, 0]]);
    assert!(grayscale(0).is_empty());
}
