use walrus_palette::color::Color;

#[test]
fn test_color_to_hex() {
    let color = Color::new(255, 128, 0);
    assert_eq!(color.to_hex(), "#ff8000");
}

#[test]
fn test_yiq_conversion() {
    let dark_color = Color::new(50, 50, 50);
    let light_color = Color::new(200, 200, 200);

    assert!(dark_color.to_yiq() < light_color.to_yiq());
}

#[test]
fn test_to_hex_stripped() {
    let color = Color::new(255, 128, 0);
    assert_eq!(color.to_hex_stripped(), "ff8000");
}

#[test]
fn test_to_rgb() {
    let color = Color::new(255, 128, 0);
    assert_eq!(color.to_rgb(), "rgb(255, 128, 0)");
}

#[test]
fn test_to_hsl_primary() {
    assert_eq!(Color::new(255, 0, 0).to_hsl(), "hsl(0, 100%, 50%)");
    assert_eq!(Color::new(255, 128, 0).to_hsl(), "hsl(30, 100%, 50%)");
}

#[test]
fn test_to_hsl_grayscale() {
    assert_eq!(Color::new(128, 128, 128).to_hsl(), "hsl(0, 0%, 50%)");
}

#[test]
fn test_darken_truncates() {
    // 255 * (1 - 0.8) = 51 exactly; 102 * 0.2 = 20.4 truncates to 20
    assert_eq!(Color::new(255, 255, 255).darken(800), Color::new(51, 51, 51));
    assert_eq!(Color::new(102, 102, 102).darken(800), Color::new(20, 20, 20));
}

#[test]
fn test_lighten_moves_toward_white() {
    // 0 + 255 * 0.4 = 102; 20 + 235 * 0.75 = 196.25 truncates to 196
    assert_eq!(Color::new(0, 0, 0).lighten(400), Color::new(102, 102, 102));
    assert_eq!(Color::new(20, 20, 20).lighten(750), Color::new(196, 196, 196));
}

#[test]
fn test_saturate_grayscale_is_noop() {
    let gray = Color::new(100, 100, 100);
    assert_eq!(gray.saturate(500), gray);
    let black = Color::new(0, 0, 0);
    assert_eq!(black.saturate(1000), black);
    let white = Color::new(255, 255, 255);
    assert_eq!(white.saturate(300), white);
}

#[test]
fn test_saturate_full_on_pure_hue() {
    // a pure hue at full saturation keeps its channels
    assert_eq!(Color::new(255, 0, 0).saturate(1000), Color::new(255, 0, 0));
}

#[test]
fn test_weighted_color_new() {
    let w = walrus_palette::color::WeightedColor::new(Color::new(1, 2, 3), 7);
    assert_eq!(w.color, Color::new(1, 2, 3));
    assert_eq!(w.count, 7);
}
