use aurion::artifact::{ImageBuf, Pixel};
use aurion::blend::{blend_images, blend_pixel, BlendMode};

#[test]
fn test_normal_blend() {
    let bottom = Pixel::rgba(100, 100, 100, 255);
    let top = Pixel::rgba(200, 200, 200, 128);
    let result = blend_pixel(bottom, top, BlendMode::Normal, 255);
    // Compositing a half-covering top over an opaque bottom leaves the
    // output fully opaque.
    assert_eq!(result.a, 255);
}

#[test]
fn test_multiply_blend() {
    let bottom = Pixel::rgba(255, 255, 255, 255);
    let top = Pixel::rgba(128, 128, 128, 255);
    let result = blend_pixel(bottom, top, BlendMode::Multiply, 255);
    assert_eq!(result.r, 128);
    assert_eq!(result.g, 128);
    assert_eq!(result.b, 128);
}

#[test]
fn test_opacity() {
    let bottom = Pixel::rgba(100, 100, 100, 255);
    let top = Pixel::rgba(200, 200, 200, 255);
    let result = blend_pixel(bottom, top, BlendMode::Normal, 128);
    // The top contributes at half strength, but the opaque bottom keeps
    // the output fully opaque.
    assert_eq!(result.a, 255);
    // The color lands halfway between bottom and top.
    assert_eq!(result.r, 150);
}

// Normal blend at full opacity over a fully transparent bottom
// reproduces the top pixel exactly.
#[test]
fn normal_blend_over_transparent_reproduces_top() {
    let bottom = Pixel::rgba(17, 33, 49, 0);
    let top = Pixel::rgba(200, 100, 50, 190);
    let result = blend_pixel(bottom, top, BlendMode::Normal, 255);
    assert_eq!(result, top);
}

#[test]
fn screen_blend_of_black_is_identity() {
    let bottom = Pixel::rgba(90, 120, 150, 255);
    let top = Pixel::rgba(0, 0, 0, 255);
    let result = blend_pixel(bottom, top, BlendMode::Screen, 255);
    assert_eq!(result.r, 90);
    assert_eq!(result.g, 120);
    assert_eq!(result.b, 150);
}

#[test]
fn difference_blend_is_absolute() {
    let bottom = Pixel::rgba(200, 10, 128, 255);
    let top = Pixel::rgba(50, 60, 128, 255);
    let result = blend_pixel(bottom, top, BlendMode::Difference, 255);
    assert_eq!(result.r, 150);
    assert_eq!(result.g, 50);
    assert_eq!(result.b, 0);
}

#[test]
fn zero_opacity_top_leaves_bottom() {
    let bottom = Pixel::rgba(12, 34, 56, 255);
    let top = Pixel::rgba(200, 200, 200, 255);
    let result = blend_pixel(bottom, top, BlendMode::Normal, 0);
    assert_eq!(result, bottom);
}

#[test]
fn mode_names_parse_back() {
    let modes = [
        BlendMode::Normal,
        BlendMode::Multiply,
        BlendMode::Screen,
        BlendMode::Overlay,
        BlendMode::Darken,
        BlendMode::Lighten,
        BlendMode::ColorDodge,
        BlendMode::ColorBurn,
        BlendMode::HardLight,
        BlendMode::SoftLight,
        BlendMode::Difference,
        BlendMode::Exclusion,
    ];
    for mode in modes {
        let name = mode.name().to_string();
        assert_eq!(BlendMode::parse(&name), Some(mode));
    }
    assert_eq!(BlendMode::parse(&"NotAMode".to_string()), None);
}

#[test]
fn blend_images_uses_common_extent() {
    let bottom = ImageBuf {
        width: 2,
        height: 2,
        pixels: vec![Pixel::rgba(255, 255, 255, 255); 4],
    };
    let top = ImageBuf {
        width: 1,
        height: 2,
        pixels: vec![Pixel::rgba(128, 128, 128, 255); 2],
    };
    let out = blend_images(&bottom, &top, BlendMode::Multiply, 255);
    assert_eq!(out.width, 1);
    assert_eq!(out.height, 2);
    assert_eq!(out.get_pixel(0, 0).r, 128);
    assert_eq!(out.get_pixel(0, 1).g, 128);
}
