use spritefusion_pixel_snapper::{parse_hex_color, parse_palette_string, resolve_palette};

fn as_f32(c: [u8; 3]) -> [f32; 3] {
    [c[0] as f32, c[1] as f32, c[2] as f32]
}

#[test]
fn parse_hex_color_six_digits() {
    assert_eq!(as_f32(parse_hex_color("#1a1a2e").unwrap()), [26.0, 26.0, 46.0]);
    assert_eq!(as_f32(parse_hex_color("1a1a2e").unwrap()), [26.0, 26.0, 46.0]);
}

#[test]
fn parse_hex_color_three_digits_expands() {
    assert_eq!(as_f32(parse_hex_color("#abc").unwrap()), [170.0, 187.0, 204.0]);
}

#[test]
fn parse_hex_color_rejects_bad_input() {
    assert!(parse_hex_color("zzz").is_err());
    assert!(parse_hex_color("12345").is_err());
    assert!(parse_hex_color("#gg0000").is_err());
}

#[test]
fn parse_palette_string_parses_multiple_and_skips_empty() {
    let p = parse_palette_string("#fff,000,#ff0000").unwrap();
    assert_eq!(p.len(), 3);
    assert_eq!(as_f32(p[0]), [255.0, 255.0, 255.0]);
    assert_eq!(as_f32(p[2]), [255.0, 0.0, 0.0]);

    let p2 = parse_palette_string("#fff,,").unwrap();
    assert_eq!(p2.len(), 1);

    let empty = parse_palette_string("").unwrap();
    assert!(empty.is_empty());
}

#[test]
fn resolve_palette_inline_ok() {
    let (palette, source) = resolve_palette("#fff,#000", None).unwrap();
    assert_eq!(palette.len(), 2);
    assert_eq!(source, "inline");
}

#[test]
fn resolve_palette_rejects_empty_and_oversized() {
    assert!(resolve_palette("", None).is_err());
    assert!(resolve_palette(",,", None).is_err());

    let big: String = std::iter::repeat("#010101")
        .take(257)
        .collect::<Vec<_>>()
        .join(",");
    assert!(resolve_palette(&big, None).is_err());
}
