use gstoverlays::color::RgbColor;

#[test]
fn rgb_to_argb_preserves_values() {
    let rgb = RgbColor::new(128, 64, 192);
    let argb = rgb.to_argb();

    assert_eq!(argb, 0xFF8040C0);
}

#[test]
fn argb_is_opaque_and_holds_every_component() {
    let argb = RgbColor::new(1, 2, 3).to_argb();
    assert_eq!(argb >> 24, 0xFF);
    assert_eq!((argb >> 16) & 0xFF, 1);
    assert_eq!((argb >> 8) & 0xFF, 2);
    assert_eq!(argb & 0xFF, 3);
}
