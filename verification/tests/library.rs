use spritefusion_pixel_snapper::{
    batch_failure_error, check_batch_dirs, check_batch_inputs, check_profile_size, decode_image,
    apply_palette_choices, dedup_colors, Ditherer, encode_png, image_palette_colors, is_supported_image_extension,
    palette_extraction_limit, palette_file_kind, parse_gpl_palette,
    parse_pal_palette, PaletteFile, PaletteFileKind, IMAGE_PALETTE_COLORS,
    median_peak_spacing, opaque_pixel_colors, output_file_name,
    palette_from_flat_rgb, palette_summary, parse_args, parse_hex_color,
    parse_palette_file_contents, parse_palette_string, parse_u64, prepare_quantization,
    resample, resolve_palette, sanitize_cuts, sorted_copy,
    validate_image_dimensions, CliAction, PixelSnapperError, QuantizeStep, RgbaImage,
    DEFAULT_K_COLORS,
};
use spritefusion_pixel_snapper::requested_k_colors;

fn image_from(width: u32, height: u32, pixels: &[[u8; 4]]) -> RgbaImage {
    assert_eq!(pixels.len(), (width * height) as usize);
    RgbaImage::from_pixels(width, height, pixels.to_vec())
}

fn pixels_of(img: &RgbaImage) -> Vec<[u8; 4]> {
    (0..img.pixel_count()).map(|i| img.pixel_at(i)).collect()
}

fn invalid_input(e: PixelSnapperError) -> String {
    match e {
        PixelSnapperError::InvalidInput(m) => m,
        other => panic!("expected InvalidInput, got {:?}", other),
    }
}

// ---- dimensions -------------------------------------------------------------

#[test]
fn dimension_limits() {
    assert!(validate_image_dimensions(0, 5).is_err());
    assert!(validate_image_dimensions(5, 0).is_err());
    assert!(validate_image_dimensions(1, 1).is_ok());
    assert!(validate_image_dimensions(10000, 10000).is_ok());
    assert!(validate_image_dimensions(10001, 1).is_err());
    assert_eq!(
        invalid_input(validate_image_dimensions(1, 10001).unwrap_err()),
        "Image dimensions too large (max 10000x10000)"
    );
    assert!(check_profile_size(3, 3).is_ok());
    assert!(check_profile_size(2, 3).is_err());
    assert!(check_profile_size(3, 2).is_err());
}

// ---- hex colours --------------------------------------------------------------

#[test]
fn hex_color_accepts_whitespace_and_hashes_but_not_signs() {
    assert_eq!(parse_hex_color("  #abc \t").unwrap(), [0xaa, 0xbb, 0xcc]);
    assert_eq!(parse_hex_color("##FF8000").unwrap(), [255, 128, 0]);
    assert_eq!(
        invalid_input(parse_hex_color("+f+f+f").unwrap_err()),
        "Invalid hex color '+f+f+f': non-hex characters"
    );
    assert!(parse_hex_color("+++").is_err());
}

#[test]
fn hex_color_error_messages() {
    assert_eq!(
        invalid_input(parse_hex_color("12345").unwrap_err()),
        "Invalid hex color '12345': expected 3 or 6 hex digits"
    );
    assert_eq!(
        invalid_input(parse_hex_color("#gg0000").unwrap_err()),
        "Invalid hex color '#gg0000': non-hex characters"
    );
    assert_eq!(
        invalid_input(parse_hex_color("#éé").unwrap_err()),
        "Invalid hex color '#éé': non-ascii characters"
    );
}

#[test]
fn three_digit_form_equals_doubled_six_digit_form() {
    for s in ["abc", "0f9", "F00", "123"] {
        let doubled: String = s.chars().flat_map(|c| [c, c]).collect();
        assert_eq!(parse_hex_color(s).unwrap(), parse_hex_color(&doubled).unwrap());
    }
}

// ---- palette listings --------------------------------------------------------

#[test]
fn palette_string_stops_at_first_bad_token() {
    let e = invalid_input(parse_palette_string("#fff, xyz ,#zzzzzz").unwrap_err());
    assert_eq!(e, "Invalid hex color 'xyz': non-hex characters");
}

#[test]
fn trailing_separator_changes_nothing() {
    assert_eq!(
        parse_palette_string("#102030,#405060").unwrap(),
        parse_palette_string("#102030,#405060,").unwrap()
    );
    assert_eq!(
        parse_palette_file_contents("#102030\n#405060").unwrap(),
        parse_palette_file_contents("#102030\n#405060\n").unwrap()
    );
}

#[test]
fn palette_file_skips_comments_and_blank_lines() {
    let text = "; PICO-8 subset\r\n000000\r\n\r\n  ;another comment\n#ff004d\r\n1d2b53\n";
    let p = parse_palette_file_contents(text).unwrap();
    assert_eq!(p, vec![[0, 0, 0], [0xff, 0x00, 0x4d], [0x1d, 0x2b, 0x53]]);
}

#[test]
fn resolve_palette_reports_source_and_sizes() {
    let (p, source) = resolve_palette("pico8.hex", Some(PaletteFile::Hex("000000\nffffff\n"))).unwrap();
    assert_eq!(p, vec![[0, 0, 0], [255, 255, 255]]);
    assert_eq!(source, "pico8.hex");
    assert_eq!(
        invalid_input(resolve_palette(",,", None).unwrap_err()),
        "Palette is empty (no valid colors)"
    );
    let big = vec!["#010101"; 257].join(",");
    assert_eq!(
        invalid_input(resolve_palette(&big, None).unwrap_err()),
        "Palette too large: 257 colors (max 256)"
    );
    let max = vec!["#010101"; 256].join(",");
    assert_eq!(resolve_palette(&max, None).unwrap().0.len(), 256);
}

#[test]
fn palette_file_kind_by_extension() {
    assert_eq!(palette_file_kind(true, None), Some(PaletteFileKind::Hex));
    assert_eq!(palette_file_kind(false, Some("HeX")), Some(PaletteFileKind::Hex));
    assert_eq!(palette_file_kind(false, Some("gpl")), Some(PaletteFileKind::Gpl));
    assert_eq!(palette_file_kind(true, Some("PAL")), Some(PaletteFileKind::Pal));
    assert_eq!(palette_file_kind(false, Some("png")), Some(PaletteFileKind::Image));
    assert_eq!(palette_file_kind(false, Some("JPG")), Some(PaletteFileKind::Image));
    assert_eq!(palette_file_kind(false, Some("jpeg")), Some(PaletteFileKind::Image));
    assert_eq!(palette_file_kind(true, Some("txt")), Some(PaletteFileKind::Hex));
    assert_eq!(palette_file_kind(false, Some("txt")), None);
    assert_eq!(palette_file_kind(false, None), None);
}

#[test]
fn gimp_palette_files() {
    let text = "GIMP Palette\nName: pico-8\nColumns: 8\n#\n  0   0   0\tblack\n 29  43  83\tdark-blue\r\n\n255 0 77\n";
    assert_eq!(parse_gpl_palette(text).unwrap(), vec![[0, 0, 0], [29, 43, 83], [255, 0, 77]]);
    assert_eq!(
        invalid_input(parse_gpl_palette("JASC-PAL\n0100\n1\n0 0 0\n").unwrap_err()),
        "Not a GIMP palette (missing 'GIMP Palette' header)"
    );
    assert_eq!(
        invalid_input(parse_gpl_palette("GIMP Palette\n0 0 0\n12 300 4 red\n").unwrap_err()),
        "Invalid GIMP palette line '12 300 4 red'"
    );
    assert_eq!(
        invalid_input(parse_gpl_palette("GIMP Palette\n1 2\n").unwrap_err()),
        "Invalid GIMP palette line '1 2'"
    );
    assert_eq!(parse_gpl_palette("GIMP Palette\n").unwrap(), Vec::<[u8; 3]>::new());
}

#[test]
fn jasc_palette_files() {
    let text = "JASC-PAL\r\n0100\r\n2\r\n255 0 0\r\n0 128 255\r\n";
    assert_eq!(parse_pal_palette(text).unwrap(), vec![[255, 0, 0], [0, 128, 255]]);
    assert_eq!(
        invalid_input(parse_pal_palette("GIMP Palette\n").unwrap_err()),
        "Not a JASC palette (missing 'JASC-PAL' header)"
    );
    assert_eq!(
        invalid_input(parse_pal_palette("JASC-PAL\n0100\n").unwrap_err()),
        "JASC palette is missing its color count"
    );
    assert_eq!(
        invalid_input(parse_pal_palette("JASC-PAL\n0100\nmany\n1 2 3\n").unwrap_err()),
        "Invalid JASC palette color count 'many'"
    );
    assert_eq!(
        invalid_input(parse_pal_palette("JASC-PAL\n0100\n2\n1 2 3 4\n").unwrap_err()),
        "Invalid JASC palette line '1 2 3 4'"
    );
    assert_eq!(
        invalid_input(parse_pal_palette("JASC-PAL\n0100\n3\n1 2 3\n4 5 6\n").unwrap_err()),
        "JASC palette declares 3 colors but lists 2"
    );
}

#[test]
fn resolve_palette_reads_each_file_kind() {
    let (p, source) =
        resolve_palette("retro.gpl", Some(PaletteFile::Gpl("GIMP Palette\n1 2 3\n"))).unwrap();
    assert_eq!(p, vec![[1, 2, 3]]);
    assert_eq!(source, "retro.gpl");
    let (p, _) =
        resolve_palette("retro.pal", Some(PaletteFile::Pal("JASC-PAL\n0100\n1\n9 8 7\n"))).unwrap();
    assert_eq!(p, vec![[9, 8, 7]]);
    let (p, source) =
        resolve_palette("ref.png", Some(PaletteFile::Image(vec![[4, 5, 6], [7, 8, 9]]))).unwrap();
    assert_eq!(p, vec![[4, 5, 6], [7, 8, 9]]);
    assert_eq!(source, "ref.png");
    assert_eq!(
        invalid_input(resolve_palette("empty.png", Some(PaletteFile::Image(Vec::new()))).unwrap_err()),
        "Palette is empty (no valid colors)"
    );
    assert_eq!(
        invalid_input(resolve_palette("x.gpl", Some(PaletteFile::Gpl("000000\n"))).unwrap_err()),
        "Not a GIMP palette (missing 'GIMP Palette' header)"
    );
}

#[test]
fn image_palettes_keep_first_occurrences() {
    assert_eq!(
        dedup_colors(&vec![[1, 1, 1], [2, 2, 2], [1, 1, 1], [3, 3, 3], [2, 2, 2]]),
        vec![[1, 1, 1], [2, 2, 2], [3, 3, 3]]
    );
    let img = image_from(
        3,
        2,
        &[[9, 9, 9, 255], [1, 2, 3, 0], [9, 9, 9, 128], [4, 5, 6, 255], [1, 2, 3, 0], [4, 5, 6, 1]],
    );
    assert_eq!(image_palette_colors(&img), vec![[9, 9, 9], [4, 5, 6]]);
    assert_eq!(palette_extraction_limit(None), Ok(IMAGE_PALETTE_COLORS));
    assert_eq!(IMAGE_PALETTE_COLORS, 64);
    assert_eq!(palette_extraction_limit(Some(256)), Ok(256));
    assert_eq!(palette_extraction_limit(Some(1)), Ok(1));
    assert_eq!(
        palette_extraction_limit(Some(0)),
        Err("maxColors must be between 1 and 256".to_string())
    );
    assert_eq!(
        palette_extraction_limit(Some(257)),
        Err("maxColors must be between 1 and 256".to_string())
    );
}

#[test]
fn flat_rgb_palettes() {
    assert_eq!(palette_from_flat_rgb(&[1, 2, 3, 4, 5, 6]).unwrap(), vec![[1, 2, 3], [4, 5, 6]]);
    assert_eq!(
        palette_from_flat_rgb(&[]).unwrap_err(),
        "palette_rgb must be a non-empty multiple of 3 (flat RGB)"
    );
    assert_eq!(
        palette_from_flat_rgb(&[1, 2]).unwrap_err(),
        "palette_rgb must be a non-empty multiple of 3 (flat RGB)"
    );
    assert_eq!(
        palette_from_flat_rgb(&vec![0u8; 257 * 3]).unwrap_err(),
        "Palette too large (max 256 colors)"
    );
    assert_eq!(palette_from_flat_rgb(&vec![0u8; 256 * 3]).unwrap().len(), 256);
}

#[test]
fn palette_summary_lines() {
    assert_eq!(palette_summary(None, None, false, 16), None);
    assert_eq!(
        palette_summary(Some(16), Some("pico8.hex"), true, 8).unwrap(),
        "Palette: 16 colors (from pico8.hex), limited to 8 via k-means"
    );
    assert_eq!(
        palette_summary(Some(4), None, false, 16).unwrap(),
        "Palette: 4 colors (from inline) \u{2014} k_colors ignored"
    );
}

// ---- colours ------------------------------------------------------------------

#[test]
fn applying_palette_choices() {
    let img = image_from(3, 1, &[[12, 200, 40, 255], [250, 3, 3, 9], [1, 2, 3, 0]]);
    let palette = [[0, 0, 0], [255, 0, 0], [0, 255, 0]];
    let once = apply_palette_choices(&img, &palette, &[2, 1, 7]);
    assert_eq!(pixels_of(&once), vec![[0, 255, 0, 255], [255, 0, 0, 9], [1, 2, 3, 0]]);
    assert_eq!((once.width(), once.height()), (3, 1));
    let twice = apply_palette_choices(&once, &palette, &[2, 1, 7]);
    assert_eq!(pixels_of(&once), pixels_of(&twice));
}

#[test]
fn empty_palette_keeps_pixels() {
    let img = image_from(2, 1, &[[12, 200, 40, 255], [1, 2, 3, 0]]);
    let out = apply_palette_choices(&img, &[], &[0, 0]);
    assert_eq!(pixels_of(&out), pixels_of(&img));
}

// ---- quantization plan --------------------------------------------------------

#[test]
fn quantization_plans() {
    let img = image_from(2, 2, &[[10, 10, 10, 255], [0, 0, 0, 0], [200, 0, 0, 255], [200, 0, 0, 1]]);
    assert_eq!(opaque_pixel_colors(&img), vec![[10, 10, 10], [200, 0, 0], [200, 0, 0]]);

    let empty: [[u8; 3]; 0] = [];
    assert!(matches!(
        prepare_quantization(&img, Some(&empty), 4, false),
        Err(PixelSnapperError::InvalidInput(_))
    ));
    assert!(matches!(
        prepare_quantization(&img, Some(&[[0, 0, 0]]), 4, false),
        Ok(QuantizeStep::MapToPalette)
    ));
    assert!(prepare_quantization(&img, None, 0, true).is_err());
    match prepare_quantization(&img, None, 16, false).unwrap() {
        QuantizeStep::Cluster { colors, k } => {
            assert_eq!(colors.len(), 3);
            assert_eq!(k, 3);
        }
        _ => panic!("expected clustering"),
    }
    match prepare_quantization(&img, Some(&[[0, 0, 0]]), 2, true).unwrap() {
        QuantizeStep::Cluster { k, .. } => assert_eq!(k, 2),
        _ => panic!("expected clustering"),
    }
    let clear = image_from(1, 1, &[[9, 9, 9, 0]]);
    match prepare_quantization(&clear, None, 5, false).unwrap() {
        QuantizeStep::Done(out) => assert_eq!(pixels_of(&out), vec![[9, 9, 9, 0]]),
        _ => panic!("nothing to cluster"),
    }
}

// ---- grid cuts ---------------------------------------------------------------

#[test]
fn sanitize_cuts_examples() {
    assert_eq!(sanitize_cuts(vec![5, 3, 3, 20, 7], 10), vec![0, 3, 5, 7, 10]);
    assert_eq!(sanitize_cuts(vec![], 4), vec![0, 4]);
    assert_eq!(sanitize_cuts(vec![9, 9], 0), vec![0]);
    let once = sanitize_cuts(vec![12, 0, 6, 6, 3], 8);
    assert_eq!(once, vec![0, 3, 6, 8]);
    assert_eq!(sanitize_cuts(once.clone(), 8), once);
}

#[test]
fn sorting_and_peak_spacing() {
    assert_eq!(sorted_copy(&[5, 1, 4, 1, 3]), vec![1, 1, 3, 4, 5]);
    assert_eq!(median_peak_spacing(&[3], 4), None);
    // peaks 10 and 12 are closer than the filter, 12 is dropped
    assert_eq!(median_peak_spacing(&[2, 10, 12, 18, 26, 40], 4), Some(8));
    assert_eq!(median_peak_spacing(&[1, 2, 3], 4), None);
    assert_eq!(median_peak_spacing(&[0, 4, 12], 4), Some(8));
}

// ---- resampling ---------------------------------------------------------------

#[test]
fn resample_takes_majority_with_smallest_colour_on_ties() {
    let a = [1, 1, 1, 255];
    let b = [2, 2, 2, 255];
    let img = image_from(4, 2, &[a, a, b, a, b, a, b, b]);
    let out = resample(&img, &[0, 2, 4], &[0, 2]).unwrap();
    assert_eq!((out.width(), out.height()), (2, 1));
    // left cell: a,a,b,a -> a; right cell: b,a,b,b -> b
    assert_eq!(pixels_of(&out), vec![a, b]);
    // a 2x2 cell holding two of each colour picks the smaller colour
    let tie = image_from(2, 2, &[b, a, a, b]);
    let out = resample(&tie, &[0, 2], &[0, 2]).unwrap();
    assert_eq!(pixels_of(&out), vec![a]);
}

#[test]
fn resample_empty_and_outside_cells_are_transparent_black() {
    let img = image_from(2, 1, &[[5, 5, 5, 5], [6, 6, 6, 6]]);
    let out = resample(&img, &[0, 2, 2, 4], &[0, 1]).unwrap();
    assert_eq!(pixels_of(&out), vec![[5, 5, 5, 5], [0, 0, 0, 0], [0, 0, 0, 0]]);
    assert!(matches!(resample(&img, &[0], &[0, 1]), Err(PixelSnapperError::ProcessingError(_))));
    assert!(resample(&img, &[0, 2], &[1]).is_err());
}

#[test]
fn resample_on_unit_grid_is_identity() {
    let px: Vec<[u8; 4]> = (0..12u8).map(|i| [i, 255 - i, i / 2, 255]).collect();
    let img = image_from(4, 3, &px);
    let out = resample(&img, &[0, 1, 2, 3, 4], &[0, 1, 2, 3]).unwrap();
    assert_eq!((out.width(), out.height()), (4, 3));
    assert_eq!(pixels_of(&out), px);
}

// ---- decoding and encoding ----------------------------------------------------

#[test]
fn png_round_trip() {
    let px: Vec<[u8; 4]> = (0..6u8).map(|i| [i * 40, 3, 200 - i, 255 - i]).collect();
    let img = image_from(3, 2, &px);
    let bytes = encode_png(&img).unwrap();
    assert_eq!(&bytes[1..4], b"PNG");
    let back = decode_image(&bytes).unwrap();
    assert_eq!((back.width(), back.height()), (3, 2));
    assert_eq!(pixels_of(&back), px);
}

#[test]
fn decode_rejects_garbage_and_tiny_images() {
    assert!(matches!(decode_image(b"not an image"), Err(PixelSnapperError::ImageError(_))));
    let img = image_from(1, 1, &[[1, 2, 3, 4]]);
    let bytes = encode_png(&img).unwrap();
    assert!(decode_image(&bytes).is_ok());
}

// ---- command line -------------------------------------------------------------

fn args(list: &[&str]) -> Vec<String> {
    list.iter().map(|s| s.to_string()).collect()
}

#[test]
fn command_line_actions() {
    assert!(parse_args(&args(&["prog", "in.png"])).is_none());
    let a = args(&[
        "prog", "in.png", "out.png", "8", "--seed", "7", "--pixel-size", "4", "--bogus", "0", "x",
        "--seed", "+9", "--palette", "p.hex",
    ]);
    let plan = parse_args(&a).unwrap();
    assert_eq!(plan.input_path, "in.png");
    assert_eq!(plan.output_path, "out.png");
    assert_eq!(
        plan.actions,
        vec![
            CliAction::KColors(8),
            CliAction::Seed(7),
            CliAction::PixelSize(7),
            CliAction::UnknownFlag(8),
            CliAction::InvalidKColors(9, 8),
            CliAction::InvalidKColors(10, 8),
            CliAction::Seed(9),
            CliAction::Palette(14),
        ]
    );
    let b = args(&["prog", "a", "b", "x", "--seed", "-1", "--seed"]);
    assert_eq!(
        parse_args(&b).unwrap().actions,
        vec![
            CliAction::InvalidKColors(3, DEFAULT_K_COLORS),
            CliAction::InvalidSeed(5),
            CliAction::MissingSeed,
        ]
    );
    let c = args(&["prog", "a", "b", "--pixel-size"]);
    assert_eq!(parse_args(&c).unwrap().actions, vec![CliAction::MissingPixelSize]);
    let d = args(&["prog", "a", "b", "--palette"]);
    assert_eq!(parse_args(&d).unwrap().actions, vec![CliAction::MissingPalette]);
}

#[test]
fn unsigned_parsing() {
    assert_eq!(parse_u64("42"), Some(42));
    assert_eq!(parse_u64("+42"), Some(42));
    assert_eq!(parse_u64("18446744073709551615"), Some(u64::MAX));
    assert_eq!(parse_u64("18446744073709551616"), None);
    assert_eq!(parse_u64(""), None);
    assert_eq!(parse_u64("+"), None);
    assert_eq!(parse_u64("-1"), None);
    assert_eq!(parse_u64("12a"), None);
}

// ---- batch helpers ------------------------------------------------------------

#[test]
fn batch_helpers() {
    assert!(is_supported_image_extension(Some("PNG")));
    assert!(is_supported_image_extension(Some("jpeg")));
    assert!(is_supported_image_extension(Some("Jpg")));
    assert!(!is_supported_image_extension(Some("gif")));
    assert!(!is_supported_image_extension(None));

    assert_eq!(output_file_name(Some("sprite"), "in/sprite.jpg").unwrap(), "sprite.png");
    assert_eq!(
        invalid_input(output_file_name(None, "in/..").unwrap_err()),
        "Input path has no file stem: in/.."
    );
    assert!(output_file_name(Some(""), "x").is_err());

    assert_eq!(
        invalid_input(check_batch_dirs(true, false, "out").unwrap_err()),
        "Batch output directory must be different from the input directory"
    );
    assert_eq!(
        invalid_input(check_batch_dirs(false, true, "out").unwrap_err()),
        "Batch output path must be a directory: out"
    );
    assert!(check_batch_dirs(false, false, "out").is_ok());
    assert_eq!(
        invalid_input(check_batch_inputs(0, "in").unwrap_err()),
        "No supported images found in 'in'"
    );
    assert!(check_batch_inputs(2, "in").is_ok());
}

#[test]
fn batch_failure_messages() {
    let one = vec![("a.png".to_string(), "Invalid input: x".to_string())];
    match batch_failure_error(&one) {
        PixelSnapperError::ProcessingError(m) => {
            assert_eq!(m, "Batch completed with 1 failure: a.png (Invalid input: x)")
        }
        other => panic!("{:?}", other),
    }
    let two = vec![
        ("a.png".to_string(), "e1".to_string()),
        ("b.png".to_string(), "e2".to_string()),
    ];
    let e = batch_failure_error(&two);
    assert_eq!(
        e.message(),
        "Processing error: Batch completed with 2 failures: a.png (e1); b.png (e2)"
    );
}

#[test]
fn error_messages() {
    assert_eq!(
        PixelSnapperError::InvalidInput("bad".to_string()).message(),
        "Invalid input: bad"
    );
    let e = decode_image(b"??").unwrap_err();
    assert!(e.message().starts_with("Image error: "));
}

#[test]
fn leading_hash_is_optional() {
    for s in ["abc", "a1B2c3", "12345", "xyz", "abc  "] {
        let with_hash = format!("#{}", s);
        assert_eq!(
            parse_hex_color(s).map_err(|e| e.message().replace('#', "")),
            parse_hex_color(&with_hash).map_err(|e| e.message().replace('#', ""))
        );
    }
}

#[test]
fn palette_only_pipeline_output_uses_palette_colours() {
    let px: Vec<[u8; 4]> = (0..16u8)
        .map(|i| [i * 16, 255 - i * 9, i * 3, if i % 5 == 0 { 0 } else { 255 }])
        .collect();
    let img = image_from(4, 4, &px);
    let palette = [[0, 0, 0], [255, 255, 255], [255, 0, 77]];
    let choices: Vec<usize> = (0..16).map(|i| i % 3).collect();
    let mapped = apply_palette_choices(&img, &palette, &choices);
    let out = resample(&mapped, &[0, 1, 3, 4], &[0, 2, 4]).unwrap();
    for p in pixels_of(&out) {
        if p[3] != 0 {
            assert!(palette.contains(&[p[0], p[1], p[2]]));
        }
    }
}

// ---- dithering --------------------------------------------------------------

/// Dithers with the given entry for each pixel that takes one, checking the
/// target colours the ditherer asks for on the way.
fn dither_with(img: &RgbaImage, palette: &[[u8; 3]], picks: &[(Option<[u8; 3]>, usize)]) -> RgbaImage {
    let mut d = Ditherer::new(RgbaImage::from_pixels(img.width(), img.height(), pixels_of(img)), palette.to_vec());
    assert_eq!(d.pixel_count(), picks.len());
    for (expected, choice) in picks {
        assert_eq!(d.target(), *expected);
        d.advance(*choice);
    }
    assert_eq!(d.position(), picks.len());
    d.finish()
}

#[test]
fn dithering_diffuses_error_to_the_right() {
    let img = image_from(2, 1, &[[128, 128, 128, 255], [128, 128, 128, 255]]);
    // the first pixel takes white: error -127 per channel, 7/16 of it goes right
    let out = dither_with(&img, &[[0, 0, 0], [255, 255, 255]], &[(Some([128, 128, 128]), 1), (Some([72, 72, 72]), 0)]);
    assert_eq!((out.width(), out.height()), (2, 1));
    assert_eq!(pixels_of(&out), vec![[255, 255, 255, 255], [0, 0, 0, 255]]);
}

#[test]
fn dithering_diffuses_error_downwards() {
    let img = image_from(1, 2, &[[128, 128, 128, 200], [128, 128, 128, 255]]);
    // 5/16 of the error of the first pixel goes down
    let out = dither_with(&img, &[[0, 0, 0], [255, 255, 255]], &[(Some([128, 128, 128]), 1), (Some([88, 88, 88]), 0)]);
    assert_eq!(pixels_of(&out), vec![[255, 255, 255, 200], [0, 0, 0, 255]]);
}

#[test]
fn dithering_keeps_transparent_pixels_and_palette_images() {
    let img = image_from(2, 2, &[[10, 20, 30, 0], [0, 0, 0, 255], [255, 255, 255, 9], [0, 0, 0, 1]]);
    let out = dither_with(
        &img,
        &[[0, 0, 0], [255, 255, 255]],
        &[(None, 5), (Some([0, 0, 0]), 0), (Some([255, 255, 255]), 1), (Some([0, 0, 0]), 0)],
    );
    assert_eq!(pixels_of(&out), pixels_of(&img));
    let plain = image_from(1, 1, &[[12, 34, 56, 255]]);
    assert_eq!(pixels_of(&dither_with(&plain, &[], &[(None, 0)])), vec![[12, 34, 56, 255]]);
}

#[test]
fn dither_flag_is_read() {
    let a: Vec<String> = ["prog", "in.png", "out.png", "--dither", "--palette", "p.gpl"]
        .iter()
        .map(|s| s.to_string())
        .collect();
    assert_eq!(
        parse_args(&a).unwrap().actions,
        vec![CliAction::Dither, CliAction::Palette(5)]
    );
}

#[test]
fn requested_colour_counts() {
    assert_eq!(requested_k_colors(None), Ok(None));
    assert_eq!(requested_k_colors(Some(5)), Ok(Some(5)));
    assert_eq!(
        requested_k_colors(Some(0)),
        Err("k_colors must be greater than 0".to_string())
    );
}
