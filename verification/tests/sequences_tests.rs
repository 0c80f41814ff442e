use walrus_palette::color::Color;
use walrus_palette::sequences::SequenceGenerator;

fn sample_palette() -> Vec<Color> {
    let mut colors = Vec::new();
    for i in 0..16u8 {
        colors.push(Color::new(i, i, i));
    }
    colors
}

#[test]
fn test_set_color_format() {
    let generator = SequenceGenerator::new(sample_palette(), 100);
    let s = generator.set_color(4, &Color::new(255, 128, 0));
    assert_eq!(s, "\x1b]4;4;#ff8000\x1b\\");
}

#[test]
fn test_set_special_plain_and_alpha() {
    let opaque = SequenceGenerator::new(sample_palette(), 100);
    assert_eq!(
        opaque.set_special(11, &Color::new(0, 0, 0), "h"),
        "\x1b]11;#000000\x1b\\"
    );
    let translucent = SequenceGenerator::new(sample_palette(), 50);
    assert_eq!(
        translucent.set_special(11, &Color::new(0, 0, 0), "h"),
        "\x1b]11;[50]#000000\x1b\\"
    );
    // only indices 11 and 708 carry the alpha form
    assert_eq!(
        translucent.set_special(10, &Color::new(0, 0, 0), "g"),
        "\x1b]10;#000000\x1b\\"
    );
}

#[test]
fn test_iterm_tab_color_format() {
    let generator = SequenceGenerator::new(sample_palette(), 100);
    let s = generator.set_iterm_tab_color(&Color::new(1, 2, 3));
    assert_eq!(
        s,
        "\x1b]6;1;bg;red;brightness;1\x07\x1b]6;1;bg;green;brightness;2\x07\x1b]6;1;bg;blue;brightness;3\x07"
    );
}

#[test]
fn test_generate_sequences_whole_string() {
    let generator = SequenceGenerator::new(sample_palette(), 100);
    let s = generator.generate_sequences(false);

    let mut expected = String::new();
    for i in 0..16u8 {
        expected.push_str(&format!("\x1b]4;{};#{:02x}{:02x}{:02x}\x1b\\", i, i, i, i));
    }
    let background = "#000000";
    let foreground = "#0f0f0f";
    expected.push_str(&format!("\x1b]10;{}\x1b\\", foreground));
    expected.push_str(&format!("\x1b]11;{}\x1b\\", background));
    expected.push_str(&format!("\x1b]12;{}\x1b\\", foreground));
    expected.push_str(&format!("\x1b]13;{}\x1b\\", foreground));
    expected.push_str(&format!("\x1b]17;{}\x1b\\", foreground));
    expected.push_str(&format!("\x1b]19;{}\x1b\\", background));
    expected.push_str(&format!("\x1b]4;232;{}\x1b\\", background));
    expected.push_str(&format!("\x1b]4;256;{}\x1b\\", foreground));
    expected.push_str(&format!("\x1b]708;{}\x1b\\", background));

    assert_eq!(s, expected);
}

#[test]
fn test_generate_sequences_vte_fix_drops_708() {
    let generator = SequenceGenerator::new(sample_palette(), 100);
    let with_708 = generator.generate_sequences(false);
    let without_708 = generator.generate_sequences(true);
    assert!(with_708.ends_with("\x1b]708;#000000\x1b\\"));
    assert!(!without_708.contains("]708;"));
    assert!(with_708.starts_with(&without_708));
}

#[test]
fn test_short_palette_skips_missing_indices() {
    let mut colors = Vec::new();
    for i in 0..8u8 {
        colors.push(Color::new(i, i, i));
    }
    let generator = SequenceGenerator::new(colors, 100);
    let s = generator.generate_sequences(true);
    // only 8 palette indices are emitted, and foreground falls back to slot 7
    assert!(s.contains("\x1b]4;7;#070707\x1b\\"));
    assert!(!s.contains("\x1b]4;8;"));
    assert!(s.contains("\x1b]10;#070707\x1b\\"));
}
