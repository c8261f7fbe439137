use rpeg::pixel::{trim_image, Rgb, RgbImage};

fn px(v: u16) -> Rgb {
    Rgb { red: v, green: v + 1, blue: v + 2 }
}

fn image(width: u32, height: u32) -> RgbImage {
    let pixels = (0..width * height).map(|i| px(i as u16)).collect();
    RgbImage { pixels, width, height, denominator: 255 }
}

#[test]
fn trim_odd_width_and_height() {
    let out = trim_image(image(3, 3));
    assert_eq!(out, vec![px(0), px(1), px(3), px(4)]);
}

#[test]
fn trim_odd_height_only() {
    let out = trim_image(image(2, 3));
    assert_eq!(out, vec![px(0), px(1), px(2), px(3)]);
}

#[test]
fn trim_even_keeps_everything() {
    let img = image(4, 2);
    let expected = img.pixels.clone();
    assert_eq!(trim_image(img), expected);
}

#[test]
fn trim_single_pixel_to_empty() {
    assert!(trim_image(image(1, 1)).is_empty());
    assert!(trim_image(image(5, 1)).is_empty());
}
