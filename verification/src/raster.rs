use vstd::prelude::*;

use crate::error::PixelSnapperError;

verus! {

/// Mathematical model of an RGBA raster: pixels in row-major order.
pub struct Raster {
    pub width: nat,
    pub height: nat,
    pub pixels: Seq<[u8; 4]>,
}

impl Raster {
    /// Index of pixel `(x, y)` in `pixels`.
    pub open spec fn index_of(self, x: int, y: int) -> int {
        y * self.width + x
    }

    /// The pixel at column `x` and row `y`.
    pub open spec fn at(self, x: int, y: int) -> [u8; 4] {
        self.pixels[self.index_of(x, y)]
    }

    pub open spec fn in_bounds(self, x: int, y: int) -> bool {
        0 <= x < self.width && 0 <= y < self.height
    }
}

/// An RGBA image with 8 bits per channel.
#[derive(Debug)]
pub struct RgbaImage {
    width: u32,
    height: u32,
    pixels: Vec<[u8; 4]>,
}

impl View for RgbaImage {
    type V = Raster;

    closed spec fn view(&self) -> Raster {
        Raster { width: self.width as nat, height: self.height as nat, pixels: self.pixels@ }
    }
}

impl RgbaImage {
    /// Holds exactly one pixel per position.
    pub open spec fn wf(&self) -> bool {
        &&& self@.pixels.len() == self@.width * self@.height
        &&& 4 * self@.width * self@.height <= usize::MAX
        &&& self@.width <= u32::MAX
        &&& self@.height <= u32::MAX
    }

    /// A `width` x `height` image with every channel of every pixel zero.
    pub fn new(width: u32, height: u32) -> (img: RgbaImage)
        requires
            4 * width * height <= usize::MAX,
        ensures
            img.wf(),
            img@.width == width,
            img@.height == height,
            forall|i: int| 0 <= i < img@.pixels.len() ==> img@.pixels[i] == [0u8, 0u8, 0u8, 0u8],
    {
        proof {
            assert(width * height <= 4 * width * height) by (nonlinear_arith);
        }
        let n: usize = (width as usize) * (height as usize);
        let mut pixels: Vec<[u8; 4]> = Vec::with_capacity(n);
        let mut i: usize = 0;
        while i < n
            invariant
                i <= n,
                pixels@.len() == i,
                forall|j: int| 0 <= j < i ==> pixels@[j] == [0u8, 0u8, 0u8, 0u8],
            decreases n - i,
        {
            pixels.push([0u8, 0u8, 0u8, 0u8]);
            i = i + 1;
        }
        RgbaImage { width, height, pixels }
    }

    /// The pixel at column `x` and row `y`.
    pub fn get_pixel(&self, x: u32, y: u32) -> (p: [u8; 4])
        requires
            self.wf(),
            x < self@.width,
            y < self@.height,
        ensures
            p == self@.at(x as int, y as int),
    {
        proof {
            lemma_index_in_bounds(x as int, y as int, self@.width as int, self@.height as int);
            assert(self.pixels@.len() == self.pixels.len());
        }
        self.pixels[(y as usize) * (self.width as usize) + (x as usize)]
    }

    /// Replaces the pixel at column `x` and row `y`.
    pub fn put_pixel(&mut self, x: u32, y: u32, p: [u8; 4])
        requires
            old(self).wf(),
            x < old(self)@.width,
            y < old(self)@.height,
        ensures
            final(self).wf(),
            final(self)@.width == old(self)@.width,
            final(self)@.height == old(self)@.height,
            final(self)@.pixels == old(self)@.pixels.update(old(self)@.index_of(x as int, y as int), p),
    {
        proof {
            lemma_index_in_bounds(x as int, y as int, self@.width as int, self@.height as int);
            assert(self.pixels@.len() == self.pixels.len());
        }
        let i = (y as usize) * (self.width as usize) + (x as usize);
        self.pixels.set(i, p);
    }

    /// Number of pixels.
    pub fn pixel_count(&self) -> (n: usize)
        requires
            self.wf(),
        ensures
            n == self@.pixels.len(),
    {
        self.pixels.len()
    }

    /// The pixel at row-major index `i`.
    pub fn pixel_at(&self, i: usize) -> (p: [u8; 4])
        requires
            i < self@.pixels.len(),
        ensures
            p == self@.pixels[i as int],
    {
        self.pixels[i]
    }

    /// An image from its row-major pixels.
    pub fn from_pixels(width: u32, height: u32, pixels: Vec<[u8; 4]>) -> (img: RgbaImage)
        requires
            pixels@.len() == width * height,
            4 * width * height <= usize::MAX,
        ensures
            img.wf(),
            img@ == (Raster { width: width as nat, height: height as nat, pixels: pixels@ }),
    {
        assert(pixels@.len() == pixels.len());
        RgbaImage { width, height, pixels }
    }

    /// A copy of the image.
    pub fn duplicate(&self) -> (c: RgbaImage)
        requires
            self.wf(),
        ensures
            c.wf(),
            c@ == self@,
    {
        let n = self.pixels.len();
        let mut pixels: Vec<[u8; 4]> = Vec::with_capacity(n);
        let mut i: usize = 0;
        while i < n
            invariant
                n == self.pixels@.len(),
                i <= n,
                pixels@ == self.pixels@.take(i as int),
            decreases n - i,
        {
            pixels.push(self.pixels[i]);
            assert(self.pixels@.take(i + 1) == self.pixels@.take(i as int).push(self.pixels@[i as int]));
            i = i + 1;
        }
        assert(self.pixels@.take(n as int) == self.pixels@);
        RgbaImage { width: self.width, height: self.height, pixels }
    }

    pub fn width(&self) -> (w: u32)
        ensures
            w == self@.width,
    {
        self.width
    }

    pub fn height(&self) -> (h: u32)
        ensures
            h == self@.height,
    {
        self.height
    }
}

/// Row-major indices of in-bounds positions stay inside the pixel buffer.
pub proof fn lemma_index_in_bounds(x: int, y: int, w: int, h: int)
    requires
        0 <= x < w,
        0 <= y < h,
    ensures
        0 <= y * w,
        0 <= y * w + x < w * h,
{
    assert(0 <= y * w) by (nonlinear_arith)
        requires
            0 <= y,
            0 <= w,
    ;
    assert(y * w + w <= w * h) by (nonlinear_arith)
        requires
            y + 1 <= h,
            0 <= w,
    ;
}

/// Rejects empty images and images wider or taller than 10000 pixels.
pub fn validate_image_dimensions(width: u32, height: u32) -> (res: Result<(), PixelSnapperError>)
    ensures
        res is Ok <==> (1 <= width <= 10000 && 1 <= height <= 10000),
        (width == 0 || height == 0) ==> (res matches Err(PixelSnapperError::InvalidInput(m)) && m@
            == "Image dimensions cannot be zero"@),
        (width != 0 && height != 0 && (width > 10000 || height > 10000)) ==> (res matches Err(
            PixelSnapperError::InvalidInput(m),
        ) && m@ == "Image dimensions too large (max 10000x10000)"@),
{
    if width == 0 || height == 0 {
        return Err(PixelSnapperError::InvalidInput(String::from_str("Image dimensions cannot be zero")));
    }
    if width > 10000 || height > 10000 {
        return Err(
            PixelSnapperError::InvalidInput(
                String::from_str("Image dimensions too large (max 10000x10000)"),
            ),
        );
    }
    Ok(())
}

/// Pixels read from raw RGBA bytes, four bytes per pixel.
pub open spec fn pixels_from_raw(count: nat, raw: Seq<u8>) -> Seq<[u8; 4]> {
    Seq::new(count, |i: int| [raw[4 * i], raw[4 * i + 1], raw[4 * i + 2], raw[4 * i + 3]])
}

/// Raw RGBA bytes of pixels, four bytes per pixel.
pub open spec fn raw_from_pixels(pixels: Seq<[u8; 4]>) -> Seq<u8>
    decreases pixels.len(),
{
    if pixels.len() == 0 {
        Seq::empty()
    } else {
        raw_from_pixels(pixels.drop_last()) + pixels.last()@
    }
}

/// What `image` decodes from `bytes` when the format is taken from the magic
/// bytes (`image::guess_format`) and the bytes are then decoded in that format
/// (`image::load_from_memory_with_format`) and converted with `to_rgba8`:
/// width, height and the raw RGBA buffer, or nothing when decoding fails.
pub uninterp spec fn rgba8_decoding(bytes: Seq<u8>) -> Option<(u32, u32, Seq<u8>)>;

/// What `image`'s PNG encoder writes for a `width` x `height` RGBA buffer, or
/// nothing when it fails.
pub uninterp spec fn png_encoding(width: u32, height: u32, raw: Seq<u8>) -> Option<Seq<u8>>;

/// Calls `image::guess_format` (the built-in magic-byte table, no registered
/// hooks), then `image::load_from_memory_with_format` with that format (a
/// built-in decoder, no registered hooks), and converts the result with
/// `DynamicImage::to_rgba8`. Trusted: the result is the named decoding of
/// `bytes`, which depends on the bytes alone; the buffer of an `ImageBuffer`
/// holds at least four bytes per pixel (`ImageBuffer::from_raw` refuses shorter
/// ones and `ImageBuffer::new` allocates exactly that many). Left unsaid:
/// that the enabled decoders never panic on malformed input.
#[verifier::external_body]
fn load_rgba8(bytes: &[u8]) -> (res: Result<(u32, u32, Vec<u8>), image::ImageError>)
    ensures
        res is Ok <==> rgba8_decoding(bytes@) is Some,
        res matches Ok((w, h, raw)) ==> rgba8_decoding(bytes@) == Some((w, h, raw@)) && raw@.len() >= 4
            * w * h,
{
    let format = image::guess_format(bytes)?;
    let img = image::load_from_memory_with_format(bytes, format)?.to_rgba8();
    let (w, h) = img.dimensions();
    Ok((w, h, img.into_raw()))
}

/// Builds an `image::RgbaImage` with `ImageBuffer::from_raw` and writes it as
/// PNG with `ImageBuffer::write_to` into a byte buffer. Trusted: the result is
/// the named PNG encoding of the buffer; `from_raw` accepts a buffer of exactly
/// four bytes per pixel, so it returns an image here.
#[verifier::external_body]
fn write_png(width: u32, height: u32, raw: Vec<u8>) -> (res: Result<Vec<u8>, image::ImageError>)
    requires
        raw@.len() == 4 * width * height,
    ensures
        res is Ok <==> png_encoding(width, height, raw@) is Some,
        res matches Ok(bytes) ==> png_encoding(width, height, raw@) == Some(bytes@),
{
    let img: image::RgbaImage = image::ImageBuffer::from_raw(width, height, raw).unwrap();
    let mut bytes: Vec<u8> = Vec::new();
    img.write_to(&mut std::io::Cursor::new(&mut bytes), image::ImageFormat::Png)?;
    Ok(bytes)
}

/// The image an encoded file holds, as decoding and the dimension check leave it.
pub open spec fn decoded_image(bytes: Seq<u8>) -> Option<Result<Raster, ()>> {
    match rgba8_decoding(bytes) {
        None => None,
        Some((w, h, raw)) => Some(
            if 1 <= w <= 10000 && 1 <= h <= 10000 {
                Ok(Raster { width: w as nat, height: h as nat, pixels: pixels_from_raw((w * h) as nat, raw) })
            } else {
                Err(())
            },
        ),
    }
}

/// An image from raw RGBA bytes (four per pixel, row-major), after checking
/// its dimensions with `validate_image_dimensions`.
pub fn image_from_rgba8(width: u32, height: u32, raw: &[u8]) -> (res: Result<RgbaImage, PixelSnapperError>)
    requires
        raw@.len() >= 4 * width * height,
    ensures
        (1 <= width <= 10000 && 1 <= height <= 10000) ==> (res matches Ok(img) && img.wf() && img@ == Raster {
            width: width as nat,
            height: height as nat,
            pixels: pixels_from_raw((width * height) as nat, raw@),
        }),
        !(1 <= width <= 10000 && 1 <= height <= 10000) ==> (res matches Err(e) && e is InvalidInput),
{
    validate_image_dimensions(width, height)?;
    proof {
        assert(raw@.len() == raw.len());
        assert(raw.len() <= usize::MAX);
        assert(width * height <= 4 * width * height) by (nonlinear_arith);
    }
    let n = (width as usize) * (height as usize);
    let mut pixels: Vec<[u8; 4]> = Vec::with_capacity(n);
    let mut i: usize = 0;
    while i < n
        invariant
            n == width * height,
            raw@.len() >= 4 * width * height,
            4 * width * height <= usize::MAX,
            i <= n,
            pixels@.len() == i,
            forall|k: int| 0 <= k < i ==> #[trigger] pixels@[k] == pixels_from_raw(n as nat, raw@)[k],
        decreases n - i,
    {
        proof {
            assert(4 * i + 3 < 4 * width * height) by (nonlinear_arith)
                requires
                    i < n,
                    n == width * height,
            ;
        }
        pixels.push([raw[4 * i], raw[4 * i + 1], raw[4 * i + 2], raw[4 * i + 3]]);
        i = i + 1;
    }
    assert(pixels@ == pixels_from_raw(n as nat, raw@));
    Ok(RgbaImage::from_pixels(width, height, pixels))
}

/// Decodes an encoded image (PNG, JPEG, ...) into RGBA and checks its
/// dimensions with `validate_image_dimensions`.
pub fn decode_image(bytes: &[u8]) -> (res: Result<RgbaImage, PixelSnapperError>)
    ensures
        match decoded_image(bytes@) {
            None => res matches Err(e) && e is ImageError,
            Some(Err(_)) => res matches Err(e) && e is InvalidInput,
            Some(Ok(r)) => res matches Ok(img) && img.wf() && img@ == r,
        },
{
    match load_rgba8(bytes) {
        Ok((w, h, raw)) => image_from_rgba8(w, h, raw.as_slice()),
        Err(e) => Err(PixelSnapperError::ImageError(e)),
    }
}

/// What encoding an image as PNG gives: the encoded bytes, or nothing when the
/// encoder fails.
pub open spec fn png_of(r: Raster) -> Option<Seq<u8>> {
    png_encoding(r.width as u32, r.height as u32, raw_from_pixels(r.pixels))
}

/// The raw RGBA bytes of the image, four per pixel, row-major.
pub fn rgba8_bytes(img: &RgbaImage) -> (raw: Vec<u8>)
    requires
        img.wf(),
        4 * img@.width * img@.height <= usize::MAX,
    ensures
        raw@ == raw_from_pixels(img@.pixels),
        raw@.len() == 4 * img@.width * img@.height,
{
    let n = img.pixel_count();
    proof {
        assert(4 * n == 4 * img@.width * img@.height) by (nonlinear_arith)
            requires
                n == img@.width * img@.height,
        ;
    }
    let mut raw: Vec<u8> = Vec::with_capacity(4 * n);
    let mut i: usize = 0;
    while i < n
        invariant
            img.wf(),
            n == img@.pixels.len(),
            4 * n <= usize::MAX,
            4 * n == 4 * img@.width * img@.height,
            i <= n,
            raw@ == raw_from_pixels(img@.pixels.take(i as int)),
            raw@.len() == 4 * i,
        decreases n - i,
    {
        let p = img.pixel_at(i);
        raw.push(p[0]);
        raw.push(p[1]);
        raw.push(p[2]);
        raw.push(p[3]);
        proof {
            let t = img@.pixels.take(i + 1);
            assert(t.drop_last() == img@.pixels.take(i as int));
            assert(t.last() == p);
            assert(raw@ =~= raw_from_pixels(img@.pixels.take(i as int)) + p@);
        }
        i = i + 1;
    }
    assert(img@.pixels.take(n as int) == img@.pixels);
    raw
}

/// Encodes the image as PNG.
pub fn encode_png(img: &RgbaImage) -> (res: Result<Vec<u8>, PixelSnapperError>)
    requires
        img.wf(),
        4 * img@.width * img@.height <= usize::MAX,
    ensures
        match png_of(img@) {
            Some(bytes) => res matches Ok(v) && v@ == bytes,
            None => res matches Err(e) && e is ImageError,
        },
{
    let raw = rgba8_bytes(img);
    match write_png(img.width(), img.height(), raw) {
        Ok(bytes) => Ok(bytes),
        Err(e) => Err(PixelSnapperError::ImageError(e)),
    }
}

/// Rejects images smaller than 3x3, on which no edge profile can be taken.
pub fn check_profile_size(width: u32, height: u32) -> (res: Result<(), PixelSnapperError>)
    ensures
        res is Ok <==> (width >= 3 && height >= 3),
        res matches Err(e) ==> (e matches PixelSnapperError::InvalidInput(m) && m@
            == "Image too small (minimum 3x3)"@),
{
    if width < 3 || height < 3 {
        return Err(PixelSnapperError::InvalidInput(String::from_str("Image too small (minimum 3x3)")));
    }
    Ok(())
}

/// Decoding keeps the channel order of the RGBA bytes the decoder gives: the
/// pixel at column `x` and row `y` of a `w` x `h` image is the four bytes at
/// `4 * (y * w + x)` as red, green, blue and alpha.
pub proof fn law_decoded_pixels_keep_channel_order(bytes: Seq<u8>, x: int, y: int)
    requires
        rgba8_decoding(bytes) matches Some((w, h, raw)) && 1 <= w <= 10000 && 1 <= h <= 10000 && 0 <= x < w && 0
            <= y < h,
    ensures
        ({
            let (w, h, raw) = rgba8_decoding(bytes).unwrap();
            let k = 4 * (y * w + x);
            decoded_image(bytes) matches Some(Ok(r)) && r.width == w && r.height == h && r.at(x, y) == [
                raw[k],
                raw[k + 1],
                raw[k + 2],
                raw[k + 3],
            ]
        }),
{
    let (w, h, raw) = rgba8_decoding(bytes).unwrap();
    lemma_index_in_bounds(x, y, w as int, h as int);
}

/// Encoding writes each pixel as its red, green, blue and alpha bytes, in
/// pixel order: byte `4 * i + k` is channel `k` of pixel `i`.
pub proof fn law_raw_bytes_keep_channel_order(pixels: Seq<[u8; 4]>, i: int, k: int)
    requires
        0 <= i < pixels.len(),
        0 <= k < 4,
    ensures
        raw_from_pixels(pixels).len() == 4 * pixels.len(),
        raw_from_pixels(pixels)[4 * i + k] == pixels[i][k],
    decreases pixels.len(),
{
    lemma_raw_len(pixels.drop_last());
    if i < pixels.len() - 1 {
        law_raw_bytes_keep_channel_order(pixels.drop_last(), i, k);
    }
}

proof fn lemma_raw_len(pixels: Seq<[u8; 4]>)
    ensures
        raw_from_pixels(pixels).len() == 4 * pixels.len(),
    decreases pixels.len(),
{
    if pixels.len() > 0 {
        lemma_raw_len(pixels.drop_last());
    }
}

} // verus!
