use walrus_palette::color::Color;
use walrus_palette::parser::TemplateParser;

fn sample_palette() -> Vec<Color> {
    let mut colors = Vec::new();
    for i in 0..16u8 {
        colors.push(Color::new(i * 10, i * 5, i));
    }
    colors
}

#[test]
fn test_color_variables_are_bound() {
    let parser = TemplateParser::new(sample_palette());
    assert_eq!(parser.parse_template("{color0}"), "#000000");
    assert_eq!(parser.parse_template("{color15}"), "#964b0f");
}

#[test]
fn test_substitution_exact_values() {
    let parser = TemplateParser::new(sample_palette());
    // color1 is (10, 5, 1)
    assert_eq!(parser.parse_template("{color1}"), "#0a0501");
    assert_eq!(parser.parse_template("{color1.strip}"), "0a0501");
    assert_eq!(
        parser.parse_template("bg={background} fg={foreground}"),
        "bg=#000000 fg=#964b0f"
    );
    assert_eq!(parser.parse_template("{cursor.strip}"), "964b0f");
}

#[test]
fn test_unknown_token_is_kept() {
    let parser = TemplateParser::new(sample_palette());
    assert_eq!(parser.parse_template("{nope} {color2}"), "{nope} #140a02");
}

#[test]
fn test_malformed_tokens_are_copied() {
    let parser = TemplateParser::new(sample_palette());
    assert_eq!(parser.parse_template("{} {unclosed"), "{} {unclosed");
    assert_eq!(parser.parse_template("a{b c}d"), "a{b c}d");
}

#[test]
fn test_foreground_falls_back_to_slot_7() {
    let mut colors = Vec::new();
    for i in 0..8u8 {
        colors.push(Color::new(i, i, i));
    }
    let parser = TemplateParser::new(colors);
    // slot 15 does not exist: foreground and cursor alias slot 7
    assert_eq!(parser.parse_template("{foreground}"), "#070707");
    assert_eq!(parser.parse_template("{cursor}"), "#070707");
    assert_eq!(parser.parse_template("{background}"), "#000000");
}
