use vstd::prelude::*;

use crate::raster::{Raster, RgbaImage};

verus! {

/// The RGB part of a pixel.
pub open spec fn rgb_of(p: [u8; 4]) -> [u8; 3] {
    [p[0], p[1], p[2]]
}

/// What painting a pixel with palette entry `j` gives: transparent pixels
/// (alpha 0) and pixels facing an empty palette are kept; any other pixel
/// takes the RGB of entry `j` and keeps its alpha.
pub open spec fn painted_pixel(palette: Seq<[u8; 3]>, p: [u8; 4], j: usize) -> [u8; 4] {
    if p[3] == 0 || palette.len() == 0 {
        p
    } else {
        let c = palette[j as int];
        [c[0], c[1], c[2], p[3]]
    }
}

/// Whether `choices` names a palette entry for every pixel of `r` that takes
/// one (an opaque pixel facing a non-empty palette).
pub open spec fn choices_fit(r: Raster, palette: Seq<[u8; 3]>, choices: Seq<usize>) -> bool {
    &&& choices.len() == r.pixels.len()
    &&& forall|i: int|
        0 <= i < r.pixels.len() && (#[trigger] r.pixels[i])[3] != 0 && palette.len() > 0 ==> choices[i] < palette.len()
}

/// The image `r` with pixel `i` painted with palette entry `choices[i]`.
pub open spec fn painted(r: Raster, palette: Seq<[u8; 3]>, choices: Seq<usize>) -> Raster {
    Raster {
        width: r.width,
        height: r.height,
        pixels: Seq::new(r.pixels.len(), |i: int| painted_pixel(palette, r.pixels[i], choices[i])),
    }
}

/// Builds the palette-mapped image from the palette entry chosen for each
/// pixel (the choice of the nearest entry is made by the caller): transparent
/// pixels are kept, every other pixel takes the RGB of its chosen entry and
/// keeps its alpha; with an empty palette the image is kept.
pub fn apply_palette_choices(img: &RgbaImage, palette: &[[u8; 3]], choices: &[usize]) -> (out: RgbaImage)
    requires
        img.wf(),
        choices_fit(img@, palette@, choices@),
    ensures
        out.wf(),
        out@ == painted(img@, palette@, choices@),
{
    let n = img.pixel_count();
    let mut pixels: Vec<[u8; 4]> = Vec::with_capacity(n);
    let mut i: usize = 0;
    while i < n
        invariant
            img.wf(),
            choices_fit(img@, palette@, choices@),
            n == img@.pixels.len(),
            i <= n,
            pixels@.len() == i,
            forall|l: int| 0 <= l < i ==> pixels@[l] == painted_pixel(palette@, #[trigger] img@.pixels[l], choices@[l]),
        decreases n - i,
    {
        let p = img.pixel_at(i);
        if p[3] == 0 || palette.len() == 0 {
            pixels.push(p);
        } else {
            assert(img@.pixels[i as int][3] != 0);
            let q = palette[choices[i]];
            pixels.push([q[0], q[1], q[2], p[3]]);
        }
        i = i + 1;
    }
    let out = RgbaImage::from_pixels(img.width(), img.height(), pixels);
    assert(out@.pixels =~= painted(img@, palette@, choices@).pixels);
    out
}

/// Painting keeps the size of the image and the alpha of every pixel, keeps
/// transparent pixels, and gives every other pixel a colour of the palette
/// when the palette is not empty.
pub proof fn law_painted_pixels_use_palette(r: Raster, palette: Seq<[u8; 3]>, choices: Seq<usize>, i: int)
    requires
        choices_fit(r, palette, choices),
        0 <= i < r.pixels.len(),
    ensures
        painted(r, palette, choices).width == r.width,
        painted(r, palette, choices).height == r.height,
        painted(r, palette, choices).pixels.len() == r.pixels.len(),
        painted(r, palette, choices).pixels[i][3] == r.pixels[i][3],
        (r.pixels[i][3] == 0 || palette.len() == 0) ==> painted(r, palette, choices).pixels[i] == r.pixels[i],
        (r.pixels[i][3] != 0 && palette.len() > 0) ==> palette.contains(rgb_of(painted(r, palette, choices).pixels[i])),
        (r.pixels[i][3] != 0 && palette.len() > 0) ==> rgb_of(painted(r, palette, choices).pixels[i]) == palette[choices[i] as int],
{
    let p = r.pixels[i];
    if p[3] != 0 && palette.len() > 0 {
        let j = choices[i] as int;
        assert(rgb_of(painted(r, palette, choices).pixels[i]) =~= palette[j]);
    }
}

/// Painting an already painted image with the same choices changes nothing.
pub proof fn law_repainting_is_stable(r: Raster, palette: Seq<[u8; 3]>, choices: Seq<usize>)
    requires
        choices_fit(r, palette, choices),
    ensures
        painted(painted(r, palette, choices), palette, choices) == painted(r, palette, choices),
{
    let once = painted(r, palette, choices);
    let twice = painted(once, palette, choices);
    assert forall|i: int| 0 <= i < r.pixels.len() implies twice.pixels[i] == once.pixels[i] by {
        let p = r.pixels[i];
        if p[3] != 0 && palette.len() != 0 {
            assert(painted_pixel(palette, once.pixels[i], choices[i]) =~= once.pixels[i]);
        }
    }
    assert(twice.pixels =~= once.pixels);
}

} // verus!
