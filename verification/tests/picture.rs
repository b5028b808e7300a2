use mandelbrot::renderer::{Image, Pixel};

#[test]
fn pixel_keeps_its_channels() {
    let p = Pixel::new(1, 2, 3);
    assert_eq!((p.r, p.g, p.b), (1, 2, 3));
    assert_eq!(p, Pixel { r: 1, g: 2, b: 3 });
    assert_ne!(p, Pixel::new(3, 2, 1));
}

#[test]
fn new_image_is_black() {
    let img = Image::new(4, 3);
    assert_eq!(img.dimensions(), (4, 3));
    for x in 0..4 {
        for y in 0..3 {
            assert_eq!(img.get_pixel(x, y), Pixel::new(0, 0, 0));
        }
    }
}

#[test]
fn empty_images_can_be_made() {
    assert_eq!(Image::new(0, 0).dimensions(), (0, 0));
    assert_eq!(Image::new(5, 0).dimensions(), (5, 0));
    assert_eq!(Image::new(0, 5).dimensions(), (0, 5));
}

#[test]
fn set_pixel_changes_one_pixel_only() {
    let mut img = Image::new(4, 3);
    img.set_pixel(3, 1, Pixel::new(9, 8, 7));
    img.set_pixel(1, 2, Pixel::new(1, 1, 1));
    for x in 0..4 {
        for y in 0..3 {
            let expected = if (x, y) == (3, 1) {
                Pixel::new(9, 8, 7)
            } else if (x, y) == (1, 2) {
                Pixel::new(1, 1, 1)
            } else {
                Pixel::new(0, 0, 0)
            };
            assert_eq!(img.get_pixel(x, y), expected);
        }
    }
    img.set_pixel(3, 1, Pixel::new(0, 0, 5));
    assert_eq!(img.get_pixel(3, 1), Pixel::new(0, 0, 5));
}

#[test]
fn columns_and_rows_are_not_mixed_up() {
    let mut img = Image::new(5, 2);
    img.set_pixel(4, 0, Pixel::new(40, 0, 0));
    img.set_pixel(0, 1, Pixel::new(0, 1, 0));
    assert_eq!(img.get_pixel(4, 0), Pixel::new(40, 0, 0));
    assert_eq!(img.get_pixel(0, 1), Pixel::new(0, 1, 0));
    assert_eq!(img.get_pixel(1, 0), Pixel::new(0, 0, 0));
}
