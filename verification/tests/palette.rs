use obj2brs::palette::default_palette;
use obj2brs::Rgba;

#[test]
fn default_palette_has_ninety_six_entries() {
    assert_eq!(default_palette().len(), 96);
}

#[test]
fn default_palette_starts_with_the_gray_ramp() {
    let p = default_palette();
    assert_eq!(p[0], Rgba { r: 255, g: 255, b: 255, a: 255 });
    assert_eq!(p[1], Rgba { r: 184, g: 184, b: 184, a: 255 });
    assert_eq!(p[2], Rgba { r: 136, g: 136, b: 136, a: 255 });
}

#[test]
fn default_palette_ends_with_the_saturated_tail() {
    let p = default_palette();
    assert_eq!(p[95], Rgba { r: 55, g: 0, b: 55, a: 255 });
    assert_eq!(p[94], Rgba { r: 127, g: 0, b: 29, a: 255 });
    assert_eq!(p[93], Rgba { r: 255, g: 0, b: 55, a: 255 });
}
