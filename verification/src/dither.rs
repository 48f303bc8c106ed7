use vstd::prelude::*;

use crate::color::{choices_fit, rgb_of};
use crate::raster::{Raster, RgbaImage};

verus! {

/// `t` limited to `[-4080, 4080]`. Errors are kept in sixteenths of a channel
/// step; 4080 is the whole weight of Floyd–Steinberg (16/16) times the
/// largest error of one pixel (255).
pub open spec fn saturate_error(t: int) -> i32 {
    if t < -4080 {
        -4080i32
    } else if t > 4080 {
        4080i32
    } else {
        t as i32
    }
}

/// A channel value `p` plus the error `e` (in sixteenths) it has received,
/// rounded to the nearest step and limited to `0..=255`.
pub open spec fn adjusted(p: u8, e: i32) -> u8 {
    let t = 16 * p + e + 8;
    if t < 0 {
        0
    } else if t / 16 > 255 {
        255
    } else {
        (t / 16) as u8
    }
}

/// The error record with `wgt` sixteenths of the error `q` added at `j`.
pub open spec fn spread(err: Seq<[i32; 3]>, j: int, wgt: int, q: [i32; 3]) -> Seq<[i32; 3]> {
    err.update(
        j,
        [
            saturate_error(err[j][0] + wgt * q[0]),
            saturate_error(err[j][1] + wgt * q[1]),
            saturate_error(err[j][2] + wgt * q[2]),
        ],
    )
}

/// Floyd–Steinberg diffusion of the error `q` of pixel `i` of a `width` x
/// `height` raster: 7/16 to the right, 3/16 below left, 5/16 below and 1/16
/// below right, to the neighbours that exist.
pub open spec fn diffuse(err: Seq<[i32; 3]>, width: int, height: int, i: int, q: [i32; 3]) -> Seq<[i32; 3]> {
    let x = i % width;
    let y = i / width;
    let a = if x + 1 < width {
        spread(err, i + 1, 7, q)
    } else {
        err
    };
    let b = if y + 1 < height && x > 0 {
        spread(a, i + width - 1, 3, q)
    } else {
        a
    };
    let c = if y + 1 < height {
        spread(b, i + width, 5, q)
    } else {
        b
    };
    if y + 1 < height && x + 1 < width {
        spread(c, i + width + 1, 1, q)
    } else {
        c
    }
}

/// The colour pixel `p` asks for once it has received the error `e`.
pub open spec fn dither_target(p: [u8; 4], e: [i32; 3]) -> [u8; 3] {
    [adjusted(p[0], e[0]), adjusted(p[1], e[1]), adjusted(p[2], e[2])]
}

/// Whether pixel `p` takes a palette entry: it is opaque and the palette is
/// not empty.
pub open spec fn takes_entry(palette: Seq<[u8; 3]>, p: [u8; 4]) -> bool {
    p[3] != 0 && palette.len() > 0
}

/// One step of dithering: pixel `i` is written to the output with palette
/// entry `j` (chosen by the caller for the pixel's target colour) and the
/// difference between target and entry is diffused. Pixels that take no entry
/// are kept as they are and diffuse nothing.
pub open spec fn dither_step(r: Raster, palette: Seq<[u8; 3]>, i: int, j: usize, st: (Seq<[u8; 4]>, Seq<[i32; 3]>)) -> (Seq<[u8; 4]>, Seq<[i32; 3]>) {
    let p = r.pixels[i];
    if !takes_entry(palette, p) {
        (st.0.push(p), st.1)
    } else {
        let v = dither_target(p, st.1[i]);
        let c = palette[j as int];
        let q: [i32; 3] = [(v[0] - c[0]) as i32, (v[1] - c[1]) as i32, (v[2] - c[2]) as i32];
        (st.0.push([c[0], c[1], c[2], p[3]]), diffuse(st.1, r.width as int, r.height as int, i, q))
    }
}

/// The output pixels and error record after the first `choices.len()`
/// pixels, pixel `i` having been given entry `choices[i]`.
pub open spec fn dither_upto(r: Raster, palette: Seq<[u8; 3]>, choices: Seq<usize>) -> (Seq<[u8; 4]>, Seq<[i32; 3]>)
    decreases choices.len(),
{
    if choices.len() == 0 {
        (Seq::empty(), no_errors(r.pixels.len()))
    } else {
        dither_step(r, palette, choices.len() - 1, choices.last(), dither_upto(r, palette, choices.drop_last()))
    }
}

/// `r` dithered onto `palette` (Floyd–Steinberg, row by row, left to right),
/// pixel `i` having been given palette entry `choices[i]`.
pub open spec fn dithered(r: Raster, palette: Seq<[u8; 3]>, choices: Seq<usize>) -> Raster {
    Raster { width: r.width, height: r.height, pixels: dither_upto(r, palette, choices).0 }
}

/// The error record with nothing diffused yet.
pub open spec fn no_errors(n: nat) -> Seq<[i32; 3]> {
    Seq::new(n, |k: int| [0i32, 0i32, 0i32])
}

/// Whether every entry of the error record lies within the saturation bound.
pub open spec fn errors_bounded(err: Seq<[i32; 3]>) -> bool {
    forall|k: int, ch: int| 0 <= k < err.len() && 0 <= ch < 3 ==> -4080 <= #[trigger] err[k][ch] <= 4080
}

fn adjust_channel(p: u8, e: i32) -> (v: u8)
    requires
        -4080 <= e <= 4080,
    ensures
        v == adjusted(p, e),
{
    let t: i32 = 16 * (p as i32) + e + 8;
    if t < 0 {
        0
    } else if t / 16 > 255 {
        255
    } else {
        (t / 16) as u8
    }
}

fn saturate(t: i32) -> (s: i32)
    ensures
        s == saturate_error(t as int),
{
    if t < -4080 {
        -4080
    } else if t > 4080 {
        4080
    } else {
        t
    }
}

fn spread_at(err: &mut Vec<[i32; 3]>, j: usize, wgt: i32, q: [i32; 3])
    requires
        j < old(err)@.len(),
        errors_bounded(old(err)@),
        1 <= wgt <= 7,
        -255 <= q[0] <= 255,
        -255 <= q[1] <= 255,
        -255 <= q[2] <= 255,
    ensures
        final(err)@ == spread(old(err)@, j as int, wgt as int, q),
        errors_bounded(final(err)@),
{
    let e = err[j];
    assert(-4080 <= e[0] <= 4080 && -4080 <= e[1] <= 4080 && -4080 <= e[2] <= 4080) by {
        assert(-4080 <= err@[j as int][0] <= 4080);
        assert(-4080 <= err@[j as int][1] <= 4080);
        assert(-4080 <= err@[j as int][2] <= 4080);
    }
    assert(-1785 <= wgt * q[0] <= 1785) by (nonlinear_arith)
        requires
            1 <= wgt <= 7,
            -255 <= q[0] <= 255,
    ;
    assert(-1785 <= wgt * q[1] <= 1785) by (nonlinear_arith)
        requires
            1 <= wgt <= 7,
            -255 <= q[1] <= 255,
    ;
    assert(-1785 <= wgt * q[2] <= 1785) by (nonlinear_arith)
        requires
            1 <= wgt <= 7,
            -255 <= q[2] <= 255,
    ;
    let r0 = saturate(e[0] + wgt * q[0]);
    let r1 = saturate(e[1] + wgt * q[1]);
    let r2 = saturate(e[2] + wgt * q[2]);
    let ghost before = err@;
    err.set(j, [r0, r1, r2]);
    assert forall|k: int, ch: int| 0 <= k < err@.len() && 0 <= ch < 3 implies -4080 <= #[trigger] err@[k][ch] <= 4080 by {
        if k != j {
            assert(err@[k] == before[k]);
        }
    }
}

proof fn lemma_position(i: int, w: int, h: int, x: int, y: int)
    requires
        0 <= i < w * h,
        0 <= x < w,
        0 <= y,
        i == y * w + x,
    ensures
        x == i % w,
        y == i / w,
        y < h,
        x + 1 < w ==> i + 1 < w * h,
        y + 1 < h ==> i + w < w * h,
        y + 1 < h && x + 1 < w ==> i + w + 1 < w * h,
        (y + 1) * w == y * w + w,
{
    vstd::arithmetic::div_mod::lemma_fundamental_div_mod_converse(i, w, y, x);
    assert(y < h) by (nonlinear_arith)
        requires
            0 <= x,
            i == y * w + x,
            i < w * h,
            0 <= y,
            w > 0,
    ;
    assert((y + 1) * w == y * w + w) by (nonlinear_arith);
    vstd::arithmetic::mul::lemma_mul_inequality(y + 1, h, w);
    assert((y + 1) * w <= h * w);
    assert(h * w == w * h) by (nonlinear_arith);
    if y + 1 < h {
        vstd::arithmetic::mul::lemma_mul_inequality(y + 2, h, w);
        assert((y + 2) * w == y * w + w + w) by (nonlinear_arith);
    }
}

/// Floyd–Steinberg dithering of an image onto a palette, one pixel at a time.
/// The caller asks for the target colour of the next pixel (`target`), picks
/// the palette entry for it (the perceptually nearest colour) and hands the
/// choice to `advance`; `finish` returns the dithered image.
pub struct Ditherer {
    img: RgbaImage,
    palette: Vec<[u8; 3]>,
    pixels: Vec<[u8; 4]>,
    err: Vec<[i32; 3]>,
    pos: usize,
    x: usize,
    y: usize,
    choices: Ghost<Seq<usize>>,
}

impl Ditherer {
    /// The image being dithered.
    pub closed spec fn source(&self) -> Raster {
        self.img@
    }

    /// The palette dithered onto.
    pub closed spec fn palette_colors(&self) -> Seq<[u8; 3]> {
        self.palette@
    }

    /// The entries chosen so far, one per pixel done.
    pub closed spec fn chosen(&self) -> Seq<usize> {
        self.choices@
    }

    /// The state is that of `dither_upto` after the choices made so far.
    pub closed spec fn wf(&self) -> bool {
        let n = self.img@.pixels.len();
        let w = self.img@.width;
        let h = self.img@.height;
        let st = dither_upto(self.img@, self.palette@, self.choices@);
        &&& self.img.wf()
        &&& self.pos == self.choices@.len()
        &&& self.pos <= n
        &&& (self.x < w || w == 0)
        &&& self.pos == self.y * w + self.x
        &&& self.pixels@ == st.0
        &&& self.pixels@.len() == self.pos
        &&& self.err@ == st.1
        &&& self.err@.len() == n
        &&& errors_bounded(self.err@)
    }

    /// Starts dithering `img` onto `palette`.
    pub fn new(img: RgbaImage, palette: Vec<[u8; 3]>) -> (d: Ditherer)
        requires
            img.wf(),
        ensures
            d.wf(),
            d.source() == img@,
            d.palette_colors() == palette@,
            d.chosen() == Seq::<usize>::empty(),
    {
        let n = img.pixel_count();
        let mut err: Vec<[i32; 3]> = Vec::with_capacity(n);
        let mut k: usize = 0;
        while k < n
            invariant
                k <= n,
                err@ == no_errors(k as nat),
            decreases n - k,
        {
            err.push([0, 0, 0]);
            assert(err@ =~= no_errors((k + 1) as nat));
            k = k + 1;
        }
        let d = Ditherer {
            img,
            palette,
            pixels: Vec::with_capacity(n),
            err,
            pos: 0,
            x: 0,
            y: 0,
            choices: Ghost(Seq::empty()),
        };
        assert(d.err@ == dither_upto(d.img@, d.palette@, d.choices@).1);
        assert(d.pixels@ == dither_upto(d.img@, d.palette@, d.choices@).0);
        assert forall|k: int, ch: int| 0 <= k < d.err@.len() && 0 <= ch < 3 implies -4080 <= #[trigger] d.err@[k][ch] <= 4080 by {
            assert(d.err@[k] == [0i32, 0i32, 0i32]);
        }
        assert(0 * (d.img@.width as int) == 0) by (nonlinear_arith);
        d
    }

    /// Number of pixels done.
    pub fn position(&self) -> (i: usize)
        requires
            self.wf(),
        ensures
            i == self.chosen().len(),
    {
        self.pos
    }

    /// Number of pixels of the image.
    pub fn pixel_count(&self) -> (n: usize)
        requires
            self.wf(),
        ensures
            n == self.source().pixels.len(),
            self.chosen().len() <= n,
    {
        self.img.pixel_count()
    }

    /// The colour the next pixel asks for, when it takes a palette entry.
    pub fn target(&self) -> (t: Option<[u8; 3]>)
        requires
            self.wf(),
            self.chosen().len() < self.source().pixels.len(),
        ensures
            ({
                let i = self.chosen().len() as int;
                let p = self.source().pixels[i];
                if takes_entry(self.palette_colors(), p) {
                    t == Some(dither_target(p, dither_upto(self.source(), self.palette_colors(), self.chosen()).1[i]))
                } else {
                    t is None
                }
            }),
    {
        let p = self.img.pixel_at(self.pos);
        if p[3] == 0 || self.palette.len() == 0 {
            return None;
        }
        let e = self.err[self.pos];
        assert(-4080 <= e[0] <= 4080 && -4080 <= e[1] <= 4080 && -4080 <= e[2] <= 4080) by {
            assert(-4080 <= self.err@[self.pos as int][0] <= 4080);
            assert(-4080 <= self.err@[self.pos as int][1] <= 4080);
            assert(-4080 <= self.err@[self.pos as int][2] <= 4080);
        }
        Some([adjust_channel(p[0], e[0]), adjust_channel(p[1], e[1]), adjust_channel(p[2], e[2])])
    }

    /// Writes the next pixel with palette entry `choice` (ignored for a pixel
    /// that takes no entry) and diffuses its error.
    pub fn advance(&mut self, choice: usize)
        requires
            old(self).wf(),
            old(self).chosen().len() < old(self).source().pixels.len(),
            takes_entry(old(self).palette_colors(), old(self).source().pixels[old(self).chosen().len() as int])
                ==> choice < old(self).palette_colors().len(),
        ensures
            final(self).wf(),
            final(self).source() == old(self).source(),
            final(self).palette_colors() == old(self).palette_colors(),
            final(self).chosen() == old(self).chosen().push(choice),
    {
        let ghost r = self.img@;
        let ghost old_choices = self.choices@;
        let w: usize = self.img.width() as usize;
        let h: usize = self.img.height() as usize;
        let n = self.img.pixel_count();
        let i = self.pos;
        let x = self.x;
        let y = self.y;
        assert(w > 0) by (nonlinear_arith)
            requires
                i < n,
                n == w * h,
        ;
        proof {
            lemma_position(i as int, w as int, h as int, x as int, y as int);
            assert(old_choices.push(choice).drop_last() == old_choices);
        }
        let p = self.img.pixel_at(i);
        if p[3] == 0 || self.palette.len() == 0 {
            self.pixels.push(p);
        } else {
            let e = self.err[i];
            assert(-4080 <= e[0] <= 4080 && -4080 <= e[1] <= 4080 && -4080 <= e[2] <= 4080) by {
                assert(-4080 <= self.err@[i as int][0] <= 4080);
                assert(-4080 <= self.err@[i as int][1] <= 4080);
                assert(-4080 <= self.err@[i as int][2] <= 4080);
            }
            let v: [u8; 3] = [adjust_channel(p[0], e[0]), adjust_channel(p[1], e[1]), adjust_channel(p[2], e[2])];
            let c = self.palette[choice];
            let q: [i32; 3] = [
                (v[0] as i32) - (c[0] as i32),
                (v[1] as i32) - (c[1] as i32),
                (v[2] as i32) - (c[2] as i32),
            ];
            self.pixels.push([c[0], c[1], c[2], p[3]]);
            let ghost e0 = self.err@;
            if x + 1 < w {
                spread_at(&mut self.err, i + 1, 7, q);
            }
            if y + 1 < h && x > 0 {
                spread_at(&mut self.err, i + w - 1, 3, q);
            }
            if y + 1 < h {
                spread_at(&mut self.err, i + w, 5, q);
            }
            if y + 1 < h && x + 1 < w {
                spread_at(&mut self.err, i + w + 1, 1, q);
            }
            assert(self.err@ == diffuse(e0, w as int, h as int, i as int, q));
        }
        self.pos = i + 1;
        if x + 1 < w {
            self.x = x + 1;
        } else {
            self.x = 0;
            self.y = y + 1;
        }
        self.choices = Ghost(old_choices.push(choice));
    }

    /// The dithered image, once every pixel is done.
    pub fn finish(self) -> (out: RgbaImage)
        requires
            self.wf(),
            self.chosen().len() == self.source().pixels.len(),
        ensures
            out.wf(),
            out@ == dithered(self.source(), self.palette_colors(), self.chosen()),
    {
        RgbaImage::from_pixels(self.img.width(), self.img.height(), self.pixels)
    }
}

proof fn lemma_dither_len(r: Raster, palette: Seq<[u8; 3]>, choices: Seq<usize>)
    ensures
        dither_upto(r, palette, choices).0.len() == choices.len(),
    decreases choices.len(),
{
    if choices.len() > 0 {
        lemma_dither_len(r, palette, choices.drop_last());
    }
}

proof fn lemma_dither_prefix(r: Raster, palette: Seq<[u8; 3]>, choices: Seq<usize>, i: int)
    requires
        0 <= i < choices.len(),
    ensures
        dither_upto(r, palette, choices).0[i] == dither_upto(r, palette, choices.take(i + 1)).0[i],
    decreases choices.len(),
{
    lemma_dither_len(r, palette, choices.drop_last());
    if choices.len() > i + 1 {
        lemma_dither_prefix(r, palette, choices.drop_last(), i);
        assert(choices.drop_last().take(i + 1) == choices.take(i + 1));
    } else {
        assert(choices.take(i + 1) == choices);
    }
}

/// Dithering keeps the size of the image and the alpha of every pixel; it
/// leaves transparent pixels as they are, and gives every other pixel a colour
/// of the palette when there is one.
pub proof fn law_dithered_pixels_use_palette(r: Raster, palette: Seq<[u8; 3]>, choices: Seq<usize>, i: int)
    requires
        choices_fit(r, palette, choices),
        0 <= i < r.pixels.len(),
    ensures
        dithered(r, palette, choices).width == r.width,
        dithered(r, palette, choices).height == r.height,
        dithered(r, palette, choices).pixels.len() == r.pixels.len(),
        dithered(r, palette, choices).pixels[i][3] == r.pixels[i][3],
        (r.pixels[i][3] == 0 || palette.len() == 0) ==> dithered(r, palette, choices).pixels[i] == r.pixels[i],
        (r.pixels[i][3] != 0 && palette.len() > 0) ==> palette.contains(rgb_of(dithered(r, palette, choices).pixels[i])),
        (r.pixels[i][3] != 0 && palette.len() > 0) ==> rgb_of(dithered(r, palette, choices).pixels[i]) == palette[choices[i] as int],
{
    lemma_dither_len(r, palette, choices);
    lemma_dither_prefix(r, palette, choices, i);
    let pre = choices.take(i + 1);
    assert(pre.drop_last() == choices.take(i));
    lemma_dither_len(r, palette, choices.take(i));
    let p = r.pixels[i];
    if p[3] != 0 && palette.len() > 0 {
        let j = choices[i] as int;
        assert(pre.last() == choices[i]);
        assert(rgb_of(dithered(r, palette, choices).pixels[i]) =~= palette[j]);
    }
}

/// Whether each pixel that takes an entry was given an entry of its own colour.
pub open spec fn choices_match_pixels(r: Raster, palette: Seq<[u8; 3]>, choices: Seq<usize>) -> bool {
    &&& choices.len() == r.pixels.len()
    &&& forall|i: int|
        0 <= i < r.pixels.len() && takes_entry(palette, #[trigger] r.pixels[i]) ==> choices[i] < palette.len()
            && palette[choices[i] as int] == rgb_of(r.pixels[i])
}

proof fn lemma_spread_nothing(n: nat, j: int, wgt: int)
    requires
        0 <= j < n,
    ensures
        spread(no_errors(n), j, wgt, [0i32, 0i32, 0i32]) == no_errors(n),
{
    let z: [i32; 3] = [0i32, 0i32, 0i32];
    assert(wgt * z[0] == 0 && wgt * z[1] == 0 && wgt * z[2] == 0) by (nonlinear_arith)
        requires
            z[0] == 0 && z[1] == 0 && z[2] == 0,
    ;
    let e = no_errors(n)[j];
    let t = [
        saturate_error(e[0] + wgt * z[0]),
        saturate_error(e[1] + wgt * z[1]),
        saturate_error(e[2] + wgt * z[2]),
    ];
    assert(t =~= z);
    assert(spread(no_errors(n), j, wgt, z) =~= no_errors(n));
}

proof fn lemma_dither_of_palette_image(r: Raster, palette: Seq<[u8; 3]>, choices: Seq<usize>, k: int)
    requires
        0 <= k <= r.pixels.len(),
        r.pixels.len() == r.width * r.height,
        choices_match_pixels(r, palette, choices),
    ensures
        dither_upto(r, palette, choices.take(k)) == (r.pixels.take(k), no_errors(r.pixels.len())),
    decreases k,
{
    let n = r.pixels.len();
    if k == 0 {
        assert(choices.take(0) == Seq::<usize>::empty());
        assert(r.pixels.take(0) == Seq::<[u8; 4]>::empty());
    } else {
        let i = k - 1;
        lemma_dither_of_palette_image(r, palette, choices, i);
        assert(choices.take(k).drop_last() == choices.take(i));
        assert(choices.take(k).last() == choices[i]);
        assert(r.pixels.take(i).push(r.pixels[i]) =~= r.pixels.take(k));
        let p = r.pixels[i];
        if takes_entry(palette, p) {
            let v = dither_target(p, [0i32, 0i32, 0i32]);
            assert(v =~= rgb_of(p));
            let c = palette[choices[i] as int];
            assert(c == v);
            let q: [i32; 3] = [(v[0] - c[0]) as i32, (v[1] - c[1]) as i32, (v[2] - c[2]) as i32];
            assert(q =~= [0i32, 0i32, 0i32]);
            assert([c[0], c[1], c[2], p[3]] =~= p);
            let w = r.width as int;
            let h = r.height as int;
            assert(w > 0) by (nonlinear_arith)
                requires
                    0 <= i < n,
                    n == w * h,
                    h >= 0,
            ;
            let x = i % w;
            let y = i / w;
            vstd::arithmetic::div_mod::lemma_fundamental_div_mod(i, w);
            assert(y >= 0) by (nonlinear_arith)
                requires
                    i >= 0,
                    w > 0,
                    y == i / w,
            ;
            lemma_position(i, w, h, x, y);
            if x + 1 < w {
                lemma_spread_nothing(n, i + 1, 7);
            }
            if y + 1 < h && x > 0 {
                lemma_spread_nothing(n, i + w - 1, 3);
            }
            if y + 1 < h {
                lemma_spread_nothing(n, i + w, 5);
            }
            if y + 1 < h && x + 1 < w {
                lemma_spread_nothing(n, i + w + 1, 1);
            }
        }
    }
}

/// Dithering an image whose opaque pixels already use only palette colours
/// changes nothing, when each pixel is given the entry of its own colour (as a
/// nearest-colour choice does): no pixel has an error to diffuse.
pub proof fn law_dither_keeps_palette_images(r: Raster, palette: Seq<[u8; 3]>, choices: Seq<usize>)
    requires
        r.pixels.len() == r.width * r.height,
        choices_match_pixels(r, palette, choices),
    ensures
        dithered(r, palette, choices) == r,
{
    lemma_dither_of_palette_image(r, palette, choices, r.pixels.len() as int);
    assert(r.pixels.take(r.pixels.len() as int) =~= r.pixels);
    assert(choices.take(r.pixels.len() as int) =~= choices);
}

proof fn lemma_errors_len(r: Raster, palette: Seq<[u8; 3]>, choices: Seq<usize>)
    requires
        r.pixels.len() == r.width * r.height,
        choices.len() <= r.pixels.len(),
    ensures
        dither_upto(r, palette, choices).1.len() == r.pixels.len(),
    decreases choices.len(),
{
    if choices.len() > 0 {
        let i = choices.len() - 1;
        lemma_errors_len(r, palette, choices.drop_last());
        if takes_entry(palette, r.pixels[i]) {
            lemma_grid_position(r, i);
        }
    }
}

/// Column and row of pixel `i`, and which of its neighbours exist.
proof fn lemma_grid_position(r: Raster, i: int)
    requires
        r.pixels.len() == r.width * r.height,
        0 <= i < r.pixels.len(),
    ensures
        r.width > 0,
        0 <= i % (r.width as int) < r.width,
        0 <= i / (r.width as int) < r.height,
        i == (i / (r.width as int)) * r.width + i % (r.width as int),
        i % (r.width as int) + 1 < r.width ==> i + 1 < r.pixels.len(),
        i / (r.width as int) + 1 < r.height ==> i + r.width < r.pixels.len(),
        i / (r.width as int) + 1 < r.height && i % (r.width as int) + 1 < r.width ==> i + r.width + 1
            < r.pixels.len(),
{
    let w = r.width as int;
    let h = r.height as int;
    let n = r.pixels.len() as int;
    assert(w > 0) by (nonlinear_arith)
        requires
            0 <= i < n,
            n == w * h,
            h >= 0,
    ;
    let x = i % w;
    let y = i / w;
    vstd::arithmetic::div_mod::lemma_fundamental_div_mod(i, w);
    assert(y >= 0) by (nonlinear_arith)
        requires
            i >= 0,
            w > 0,
            y == i / w,
    ;
    lemma_position(i, w, h, x, y);
}

/// Whether `k` is a neighbour of pixel `i` that receives a share of its error
/// (right, below left, below, below right) in a `w` x `h` raster.
pub open spec fn receives_error(w: int, h: int, i: int, k: int) -> bool {
    let x = i % w;
    let y = i / w;
    ||| k == i + 1 && x + 1 < w
    ||| k == i + w - 1 && y + 1 < h && x > 0
    ||| k == i + w && y + 1 < h
    ||| k == i + w + 1 && y + 1 < h && x + 1 < w
}

/// Floyd–Steinberg: a pixel that takes a palette entry is written with that
/// entry's colour and its alpha, and passes its error (the target colour it
/// asked for, with the error it had received, minus the entry) to its
/// neighbours: 7/16 to the right, 3/16 below left, 5/16 below and 1/16 below
/// right, each sum kept within `[-4080, 4080]`; no other entry of the error
/// record changes.
pub proof fn law_dither_passes_error_to_neighbours(r: Raster, palette: Seq<[u8; 3]>, choices: Seq<usize>, ch: int)
    requires
        r.pixels.len() == r.width * r.height,
        1 <= choices.len() <= r.pixels.len(),
        0 <= ch < 3,
        takes_entry(palette, r.pixels[choices.len() - 1]),
        choices.last() < palette.len(),
    ensures
        ({
            let i = choices.len() - 1;
            let w = r.width as int;
            let h = r.height as int;
            let x = i % w;
            let y = i / w;
            let before = dither_upto(r, palette, choices.drop_last());
            let after = dither_upto(r, palette, choices);
            let c = palette[choices.last() as int];
            let p = r.pixels[i];
            let e = dither_target(p, before.1[i])[ch] - c[ch];
            &&& after.0 == before.0.push([c[0], c[1], c[2], p[3]])
            &&& after.1.len() == before.1.len()
            &&& x + 1 < w ==> after.1[i + 1][ch] == saturate_error(before.1[i + 1][ch] + 7 * e)
            &&& y + 1 < h && x > 0 ==> after.1[i + w - 1][ch] == saturate_error(before.1[i + w - 1][ch] + 3 * e)
            &&& y + 1 < h ==> after.1[i + w][ch] == saturate_error(before.1[i + w][ch] + 5 * e)
            &&& y + 1 < h && x + 1 < w ==> after.1[i + w + 1][ch] == saturate_error(before.1[i + w + 1][ch] + e)
            &&& forall|k: int| 0 <= k < before.1.len() && !receives_error(w, h, i, k) ==> #[trigger] after.1[k] == before.1[k]
        }),
{
    let i = choices.len() - 1;
    lemma_errors_len(r, palette, choices.drop_last());
    lemma_grid_position(r, i);
    assert(choices.drop_last().len() == i);
}

/// A pixel that takes no palette entry (transparent, or facing an empty
/// palette) is written unchanged and passes no error.
pub proof fn law_dither_keeps_pixels_without_entry(r: Raster, palette: Seq<[u8; 3]>, choices: Seq<usize>)
    requires
        1 <= choices.len() <= r.pixels.len(),
        !takes_entry(palette, r.pixels[choices.len() - 1]),
    ensures
        dither_upto(r, palette, choices).0 == dither_upto(r, palette, choices.drop_last()).0.push(
            r.pixels[choices.len() - 1],
        ),
        dither_upto(r, palette, choices).1 == dither_upto(r, palette, choices.drop_last()).1,
{
}

/// The target colour is the channel value plus the received error, rounded
/// to the nearest step: an error of `16 * d` sixteenths moves the channel by
/// `d`, limited to `0..=255` (no error leaves it as it is).
pub proof fn law_target_adds_error(p: u8, d: int)
    requires
        -255 <= d <= 255,
    ensures
        adjusted(p, (16 * d) as i32) == (if p + d < 0 {
            0
        } else if p + d > 255 {
            255
        } else {
            p + d
        }),
{
    let t = 16 * p + 16 * d + 8;
    if t >= 0 {
        assert(t / 16 == p + d) by (nonlinear_arith)
            requires
                t == 16 * (p + d) + 8,
        ;
    } else {
        assert(p + d < 0);
    }
}

/// The target channel is the channel value plus the received error (in
/// sixteenths), rounded to the nearest whole step (halves round up) and
/// limited to `0..=255`.
pub proof fn law_target_rounds_to_nearest(p: u8, e: i32)
    ensures
        16 * p + e < -8 ==> adjusted(p, e) == 0,
        16 * p + e >= 256 * 16 - 8 ==> adjusted(p, e) == 255,
        -8 <= 16 * p + e < 256 * 16 - 8 ==> 16 * adjusted(p, e) - 8 <= 16 * p + e < 16 * adjusted(p, e) + 8,
{
    let t = 16 * p + e + 8;
    if t >= 0 {
        assert(16 * (t / 16) <= t < 16 * (t / 16) + 16) by (nonlinear_arith)
            requires
                t >= 0,
        ;
    }
}

/// Diffused errors add up as they are, but never beyond `[-4080, 4080]`.
pub proof fn law_errors_saturate(t: int)
    ensures
        -4080 <= t <= 4080 ==> saturate_error(t) == t,
        t < -4080 ==> saturate_error(t) == -4080,
        t > 4080 ==> saturate_error(t) == 4080,
{
}

/// Each channel of the target colour comes from the same channel of the
/// pixel and of its received error.
pub proof fn law_target_per_channel(p: [u8; 4], e: [i32; 3], ch: int)
    requires
        0 <= ch < 3,
    ensures
        dither_target(p, e)[ch] == adjusted(p[ch], e[ch]),
{
}

} // verus!
