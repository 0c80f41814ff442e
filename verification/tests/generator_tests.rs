use walrus_palette::color::Color;
use walrus_palette::generator::{PaletteError, PywalGenerator};

fn single_color_pixels(c: Color, n: usize) -> Vec<Color> {
    let mut v = Vec::new();
    for _ in 0..n {
        v.push(c);
    }
    v
}

#[test]
fn test_generate_empty_sample_fails() {
    let mut generator = PywalGenerator::new();
    let pixels: Vec<Color> = Vec::new();
    let r = generator.generate_from_pixels(&pixels, 1000, false);
    assert_eq!(r, Err(PaletteError::NoColors));
    assert_eq!(
        PaletteError::NoColors.message(),
        "No colors found in image"
    );
}

#[test]
fn test_generate_single_black_dark_mode() {
    // a single-color black input, dark mode, saturation factor 1.0:
    // slot 0 is lighten(0.40) then darken(0.80) of black, which is non-black
    let mut generator = PywalGenerator::new();
    let pixels = single_color_pixels(Color::new(0, 0, 0), 3);
    let palette = generator.generate_from_pixels(&pixels, 1000, false).unwrap();
    assert_eq!(palette.len(), 16);
    assert_ne!(palette[0], Color::new(0, 0, 0));
    assert_eq!(palette[0], Color::new(20, 20, 20));
    assert_eq!(palette[7], Color::new(196, 196, 196));
    assert_eq!(palette[8], Color::new(78, 78, 78));
    assert_eq!(palette[15], palette[7]);
    // untouched accent slots keep the replicated source color
    assert_eq!(palette[1], Color::new(0, 0, 0));
    assert_eq!(palette[14], Color::new(0, 0, 0));
}

#[test]
fn test_generate_length_is_16_for_small_inputs() {
    // inputs yielding 1, 2 and 3 quantized colors all come out as 16 slots
    let corners = [
        Color::new(0, 0, 0),
        Color::new(255, 255, 255),
        Color::new(255, 0, 0),
    ];
    for n in 1..=3usize {
        let mut generator = PywalGenerator::new();
        let mut pixels = Vec::new();
        for c in corners.iter().take(n) {
            for _ in 0..2 {
                pixels.push(*c);
            }
        }
        let palette = generator.generate_from_pixels(&pixels, 1000, false).unwrap();
        assert_eq!(palette.len(), 16);
    }
}

#[test]
fn test_slot_15_equals_slot_7_in_both_modes() {
    for light in [false, true] {
        for saturation in [1000u32, 500u32, 2000u32] {
            let mut generator = PywalGenerator::new();
            let mut pixels = single_color_pixels(Color::new(40, 80, 160), 4);
            pixels.push(Color::new(200, 30, 10));
            let palette = generator
                .generate_from_pixels(&pixels, saturation, light)
                .unwrap();
            assert_eq!(palette.len(), 16);
            assert_eq!(palette[15], palette[7]);
        }
    }
}

#[test]
fn test_saturation_pass_skips_fixed_slots() {
    let mut pixels = single_color_pixels(Color::new(40, 80, 160), 4);
    pixels.push(Color::new(200, 30, 10));

    let mut plain_generator = PywalGenerator::new();
    let plain = plain_generator.generate_from_pixels(&pixels, 1000, false).unwrap();

    let mut saturated_generator = PywalGenerator::new();
    let saturated = saturated_generator.generate_from_pixels(&pixels, 300, false).unwrap();

    for i in [0usize, 7, 8, 15] {
        assert_eq!(plain[i], saturated[i]);
    }
    // a non-fixed slot with a non-grayscale color changes
    assert_eq!(saturated[1], plain[1].saturate(300));
}

#[test]
fn test_light_mode_transforms_all_slots() {
    let mut generator = PywalGenerator::new();
    let pixels = single_color_pixels(Color::new(40, 80, 160), 4);
    let palette = generator.generate_from_pixels(&pixels, 1000, true).unwrap();
    assert_eq!(palette.len(), 16);
    assert_eq!(palette[15], palette[7]);
    // every accent slot is saturate(0.60) then darken(0.5) of the source
    let source = Color::new(40, 80, 160).saturate(600).darken(500);
    assert_eq!(palette[1], source);
}
