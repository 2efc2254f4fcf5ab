use rath::color::Color;
use rath::materials::Lambertian;
use rath::ppm::{ppm_header, ppm_image, ppm_pixel};

#[test]
fn color_new_stores_the_channels() {
    let c = Color::new(0.25f64, 0.5f64, 0.75f64);
    assert_eq!(c.r, 0.25);
    assert_eq!(c.g, 0.5);
    assert_eq!(c.b, 0.75);
}

#[test]
fn lambertian_new_stores_the_albedo() {
    let m = Lambertian::new(Color::new(0.5f64, 0.5f64, 0.5f64));
    assert_eq!(m.albedo.r, 0.5);
}

#[test]
fn header_names_the_format_and_size() {
    let header = ppm_header(1024, 576);
    assert_eq!(header, b"P3\n1024 576\n255\n".to_vec());
}

#[test]
fn pixel_line_holds_the_three_channels() {
    let line = ppm_pixel(&Color::new(0u8, 128u8, 255u8));
    assert_eq!(line, b"0 128 255\n".to_vec());
}

#[test]
fn image_is_the_header_then_one_line_per_pixel() {
    let pixels = vec![
        Color::new(255u8, 0u8, 0u8),
        Color::new(0u8, 255u8, 0u8),
        Color::new(0u8, 0u8, 255u8),
        Color::new(9u8, 10u8, 11u8),
    ];
    let image = ppm_image(2, 2, &pixels);
    assert_eq!(
        image,
        b"P3\n2 2\n255\n255 0 0\n0 255 0\n0 0 255\n9 10 11\n".to_vec()
    );
}
