//! Grid snapping and palette quantization for pixel art.
//!
//! The library holds the integer side of the pipeline: the RGBA raster model,
//! decoding and PNG encoding through the `image` crate, palette parsing
//! (inline hex lists, Lospec `.hex`, GIMP `.gpl`, JASC `.pal`, colours taken
//! from an image), building palette-mapped and Floyd–Steinberg-dithered
//! images from the palette entries chosen for their pixels,
//! grid-cut sanitation and majority resampling.

pub mod batch;
pub mod cli;
pub mod color;
pub mod dither;
pub mod error;
pub mod grid;
pub mod palette;
pub mod palette_formats;
pub mod quantize;
pub mod raster;
pub mod resample;
pub mod text;

pub use batch::{
    batch_failure_error, check_batch_dirs, check_batch_inputs, is_supported_image_extension,
    output_file_name,
};
pub use cli::{parse_args, CliAction, CliPlan};
pub use dither::Ditherer;
pub use color::apply_palette_choices;
pub use error::PixelSnapperError;
pub use grid::{median_peak_spacing, sanitize_cuts, sorted_copy};
pub use palette::{
    palette_file_kind, palette_from_flat_rgb, palette_summary, parse_hex_color,
    parse_palette_file_contents, parse_palette_string, resolve_palette, PaletteFile, PaletteFileKind, MAX_PALETTE,
};
pub use palette_formats::{
    dedup_colors, image_palette_colors, palette_extraction_limit, parse_gpl_palette,
    parse_pal_palette, IMAGE_PALETTE_COLORS,
};
pub use quantize::{
    opaque_pixel_colors, prepare_quantization, requested_k_colors, QuantizeStep, DEFAULT_K_COLORS,
};
pub use raster::{
    check_profile_size, decode_image, encode_png, image_from_rgba8, rgba8_bytes,
    validate_image_dimensions, RgbaImage,
};
pub use resample::resample;
pub use text::parse_u64;
