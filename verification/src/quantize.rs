use vstd::prelude::*;

use crate::color::rgb_of;
use crate::error::PixelSnapperError;
use crate::raster::RgbaImage;

verus! {

/// Number of colours used when none is given.
pub const DEFAULT_K_COLORS: usize = 16;

/// The RGB colours of the opaque pixels (alpha not 0), in pixel order.
pub open spec fn opaque_colors(pixels: Seq<[u8; 4]>) -> Seq<[u8; 3]>
    decreases pixels.len(),
{
    if pixels.len() == 0 {
        Seq::empty()
    } else {
        let rest = opaque_colors(pixels.drop_last());
        if pixels.last()[3] == 0 {
            rest
        } else {
            rest.push(rgb_of(pixels.last()))
        }
    }
}

/// The next step of colour quantization.
#[derive(Debug)]
pub enum QuantizeStep {
    /// Quantization is finished; continue with this image.
    Done(RgbaImage),
    /// Map every opaque pixel straight onto the palette: the caller picks the
    /// perceptually nearest palette colour of each pixel and builds the image
    /// with `apply_palette_choices`.
    MapToPalette,
    /// Cluster the opaque colours `colors` into `k` centroids (k-means), snap
    /// them to the palette when one is set, and map the image onto them.
    Cluster { colors: Vec<[u8; 3]>, k: usize },
}

/// What quantization decides once k-means is called for: an error for a zero
/// colour count, the image itself when no pixel is opaque, and otherwise
/// clustering of the opaque colours into `min(k_colors, their number)` centroids.
pub open spec fn cluster_outcome(res: Result<QuantizeStep, PixelSnapperError>, img: &RgbaImage, k_colors: usize) -> bool {
    let colors = opaque_colors(img@.pixels);
    if k_colors == 0 {
        res matches Err(PixelSnapperError::InvalidInput(m)) && m@ == "Number of colors must be greater than 0"@
    } else if colors.len() == 0 {
        res matches Ok(QuantizeStep::Done(out)) && out.wf() && out@ == img@
    } else {
        res matches Ok(QuantizeStep::Cluster { colors: c, k }) && c@ == colors && k == (if k_colors
            < colors.len() {
            k_colors as int
        } else {
            colors.len() as int
        })
    }
}

/// The RGB colours of the opaque pixels of `img`.
pub fn opaque_pixel_colors(img: &RgbaImage) -> (colors: Vec<[u8; 3]>)
    requires
        img.wf(),
    ensures
        colors@ == opaque_colors(img@.pixels),
{
    let n = img.pixel_count();
    let mut colors: Vec<[u8; 3]> = Vec::new();
    let mut i: usize = 0;
    while i < n
        invariant
            img.wf(),
            n == img@.pixels.len(),
            i <= n,
            colors@ == opaque_colors(img@.pixels.take(i as int)),
        decreases n - i,
    {
        let p = img.pixel_at(i);
        assert(img@.pixels.take(i + 1).drop_last() == img@.pixels.take(i as int));
        assert(img@.pixels.take(i + 1).last() == p);
        if p[3] != 0 {
            colors.push([p[0], p[1], p[2]]);
            assert([p[0], p[1], p[2]] == rgb_of(p));
        }
        i = i + 1;
    }
    assert(img@.pixels.take(n as int) == img@.pixels);
    colors
}

/// Decides how an image is quantized. With a palette and no explicit colour
/// count every pixel is mapped straight onto the palette. Otherwise the opaque
/// colours are clustered into `min(k_colors, number of opaque pixels)`
/// centroids; an image without opaque pixels is kept as it is.
pub fn prepare_quantization(
    img: &RgbaImage,
    custom_palette: Option<&[[u8; 3]]>,
    k_colors: usize,
    k_colors_explicit: bool,
) -> (res: Result<QuantizeStep, PixelSnapperError>)
    requires
        img.wf(),
    ensures
        match custom_palette {
            Some(p) => if p@.len() == 0 {
                res matches Err(PixelSnapperError::InvalidInput(m)) && m@ == "Palette is empty"@
            } else if !k_colors_explicit {
                res matches Ok(QuantizeStep::MapToPalette)
            } else {
                cluster_outcome(res, img, k_colors)
            },
            None => cluster_outcome(res, img, k_colors),
        },
{
    if let Some(palette) = custom_palette {
        if palette.len() == 0 {
            return Err(PixelSnapperError::InvalidInput(String::from_str("Palette is empty")));
        }
        if !k_colors_explicit {
            return Ok(QuantizeStep::MapToPalette);
        }
    }
    if k_colors == 0 {
        return Err(PixelSnapperError::InvalidInput(String::from_str("Number of colors must be greater than 0")));
    }
    let colors = opaque_pixel_colors(img);
    if colors.len() == 0 {
        return Ok(QuantizeStep::Done(img.duplicate()));
    }
    let k = if k_colors < colors.len() {
        k_colors
    } else {
        colors.len()
    };
    Ok(QuantizeStep::Cluster { colors, k })
}

/// The colour count of a request that may leave it unset; a count of zero
/// is refused.
pub fn requested_k_colors(k_colors: Option<u32>) -> (res: Result<Option<usize>, String>)
    ensures
        match k_colors {
            None => res == Ok::<Option<usize>, String>(None),
            Some(k) => if k == 0 {
                res matches Err(m) && m@ == "k_colors must be greater than 0"@
            } else {
                res == Ok::<Option<usize>, String>(Some(k as usize))
            },
        },
{
    match k_colors {
        None => Ok(None),
        Some(k) => {
            if k == 0 {
                Err(String::from_str("k_colors must be greater than 0"))
            } else {
                Ok(Some(k as usize))
            }
        },
    }
}

/// The opaque colours are those of the pixels with non-zero alpha, in pixel
/// order: the colour of pixel `i` is in the list exactly when its alpha is not
/// zero, at the position given by the number of opaque pixels before it.
pub proof fn law_opaque_colors_in_pixel_order(pixels: Seq<[u8; 4]>, i: int)
    requires
        0 <= i < pixels.len(),
    ensures
        opaque_colors(pixels.take(i + 1)).len() == opaque_colors(pixels.take(i)).len() + (if pixels[i][3] != 0 {
            1int
        } else {
            0int
        }),
        pixels[i][3] != 0 ==> opaque_colors(pixels)[opaque_colors(pixels.take(i)).len() as int] == rgb_of(pixels[i]),
    decreases pixels.len(),
{
    assert(pixels.take(i + 1).drop_last() == pixels.take(i));
    assert(pixels.take(i + 1).last() == pixels[i]);
    lemma_opaque_prefix(pixels, i + 1);
    let a = opaque_colors(pixels.take(i));
    let b = opaque_colors(pixels.take(i + 1));
    if pixels[i][3] != 0 {
        assert(b == a.push(rgb_of(pixels[i])));
        assert(b[a.len() as int] == rgb_of(pixels[i]));
        assert(opaque_colors(pixels).take(b.len() as int)[a.len() as int] == opaque_colors(pixels)[a.len() as int]);
    }
}

proof fn lemma_opaque_prefix(pixels: Seq<[u8; 4]>, k: int)
    requires
        0 <= k <= pixels.len(),
    ensures
        opaque_colors(pixels.take(k)) == opaque_colors(pixels).take(opaque_colors(pixels.take(k)).len() as int),
        opaque_colors(pixels.take(k)).len() <= opaque_colors(pixels).len(),
    decreases pixels.len() - k,
{
    if k < pixels.len() {
        lemma_opaque_prefix(pixels, k + 1);
        assert(pixels.take(k + 1).drop_last() == pixels.take(k));
        let a = opaque_colors(pixels.take(k));
        let b = opaque_colors(pixels.take(k + 1));
        let full = opaque_colors(pixels);
        if b.len() == a.len() + 1 {
            assert(b.drop_last() == a);
            assert(a == full.take(a.len() as int)) by {
                assert forall|j: int| 0 <= j < a.len() implies a[j] == full[j] by {
                    assert(b[j] == a[j]);
                }
            }
        }
    } else {
        assert(pixels.take(k) == pixels);
        assert(opaque_colors(pixels).take(opaque_colors(pixels).len() as int) == opaque_colors(pixels));
    }
}

} // verus!
