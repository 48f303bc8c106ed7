use vstd::prelude::*;

use std::collections::HashSet;

use crate::error::PixelSnapperError;
use crate::palette::kept_tokens;
use crate::quantize::{opaque_colors, opaque_pixel_colors};
use crate::raster::RgbaImage;
use crate::text::{
    chars_equal, chars_of, chars_slice, chars_start_with, decimal, parse_u64, push_decimal,
    read_rgb, rgb_at_start, split_at_char, split_bounds, starts_with, trim_bounds, trimmed,
    u64_value,
};

verus! {

broadcast use vstd::string::group_string_axioms;

/// The trimmed, non-empty lines of a text (lines split at `\n`).
pub open spec fn text_lines(s: Seq<char>) -> Seq<Seq<char>> {
    kept_tokens(split_at_char(s, '\n'), false)
}

/// Whether the spans `r` of `v` are exactly the tokens `toks`.
pub open spec fn spans_are(v: Seq<char>, r: Seq<(usize, usize)>, toks: Seq<Seq<char>>) -> bool {
    &&& r.len() == toks.len()
    &&& forall|k: int| 0 <= k < r.len() ==> r[k].0 <= #[trigger] r[k].1 <= v.len()
    &&& forall|k: int| 0 <= k < r.len() ==> v.subrange(#[trigger] r[k].0 as int, r[k].1 as int) == toks[k]
}

/// Spans of the non-empty trimmed pieces of `v` between occurrences of `sep`.
pub fn token_spans(v: &Vec<char>, sep: char, comments: bool) -> (r: Vec<(usize, usize)>)
    ensures
        spans_are(v@, r@, kept_tokens(split_at_char(v@, sep), comments)),
{
    let bounds = split_bounds(v, sep);
    let ghost pieces = split_at_char(v@, sep);
    let mut r: Vec<(usize, usize)> = Vec::new();
    let mut i: usize = 0;
    while i < bounds.len()
        invariant
            pieces == split_at_char(v@, sep),
            bounds@.len() == pieces.len(),
            forall|k: int| 0 <= k < bounds@.len() ==> bounds@[k].0 <= #[trigger] bounds@[k].1 <= v@.len(),
            forall|k: int| 0 <= k < bounds@.len() ==> v@.subrange(#[trigger] bounds@[k].0 as int, bounds@[k].1 as int) == pieces[k],
            i <= bounds@.len(),
            spans_are(v@, r@, kept_tokens(pieces.take(i as int), comments)),
        decreases bounds@.len() - i,
    {
        let (lo, hi) = bounds[i];
        let (a, b) = trim_bounds(v, lo, hi);
        assert(pieces.take(i + 1).drop_last() == pieces.take(i as int));
        assert(pieces.take(i + 1).last() == pieces[i as int]);
        let ghost t = v@.subrange(a as int, b as int);
        let ghost kept = kept_tokens(pieces.take(i as int), comments);
        assert(t == trimmed(pieces[i as int]));
        if b > a && !(comments && v[a] == ';') {
            assert(t[0] == v@[a as int]);
            assert(kept_tokens(pieces.take(i + 1), comments) == kept.push(t));
            r.push((a, b));
        } else {
            assert(b > a ==> t[0] == v@[a as int]);
            assert(kept_tokens(pieces.take(i + 1), comments) == kept);
        }
        i = i + 1;
    }
    assert(pieces.take(pieces.len() as int) == pieces);
    r
}

/// Message for a line of a GIMP palette that is neither a colour nor skipped.
pub open spec fn gpl_line_fault(line: Seq<char>) -> Seq<char> {
    "Invalid GIMP palette line '"@ + line + "'"@
}

/// Lines of a GIMP palette body that carry no colour: comments and the
/// `Name:` and `Columns:` headers.
pub open spec fn gpl_skipped(line: Seq<char>) -> bool {
    starts_with(line, "#"@) || starts_with(line, "Name:"@) || starts_with(line, "Columns:"@)
}

/// The colours of the body lines of a GIMP palette, or the message for the
/// first line that is neither skipped nor starts with three numbers 0..=255.
pub open spec fn gpl_colors(lines: Seq<Seq<char>>) -> Result<Seq<[u8; 3]>, Seq<char>>
    decreases lines.len(),
{
    if lines.len() == 0 {
        Ok(Seq::empty())
    } else {
        match gpl_colors(lines.drop_last()) {
            Err(m) => Err(m),
            Ok(colors) => if gpl_skipped(lines.last()) {
                Ok(colors)
            } else {
                match rgb_at_start(lines.last()) {
                    Some((c, _)) => Ok(colors.push(c)),
                    None => Err(gpl_line_fault(lines.last())),
                }
            },
        }
    }
}

/// What reading a GIMP `.gpl` palette gives: its first line must be
/// `GIMP Palette`; each later line is skipped (see `gpl_skipped`) or starts
/// with the red, green and blue values, which a colour name may follow.
pub open spec fn gpl_listing(s: Seq<char>) -> Result<Seq<[u8; 3]>, Seq<char>> {
    let lines = text_lines(s);
    if lines.len() > 0 && lines[0] == "GIMP Palette"@ {
        gpl_colors(lines.drop_first())
    } else {
        Err("Not a GIMP palette (missing 'GIMP Palette' header)"@)
    }
}

proof fn lemma_gpl_error_sticks(lines: Seq<Seq<char>>, n: int)
    requires
        0 <= n <= lines.len(),
        gpl_colors(lines.take(n)) is Err,
    ensures
        gpl_colors(lines) == gpl_colors(lines.take(n)),
    decreases lines.len() - n,
{
    if n < lines.len() {
        assert(lines.take(n + 1).drop_last() == lines.take(n));
        lemma_gpl_error_sticks(lines, n + 1);
    } else {
        assert(lines.take(n) == lines);
    }
}

/// Parse the text of a GIMP `.gpl` palette file.
pub fn parse_gpl_palette(content: &str) -> (res: Result<Vec<[u8; 3]>, PixelSnapperError>)
    ensures
        match gpl_listing(content@) {
            Ok(colors) => res matches Ok(v) && v@ == colors,
            Err(m) => res matches Err(PixelSnapperError::InvalidInput(e)) && e@ == m,
        },
{
    let v = chars_of(content);
    let spans = token_spans(&v, '\n', false);
    let ghost lines = text_lines(content@);
    if spans.len() == 0 || !chars_equal(&chars_slice(&v, spans[0].0, spans[0].1), "GIMP Palette") {
        return Err(PixelSnapperError::InvalidInput(String::from_str("Not a GIMP palette (missing 'GIMP Palette' header)")));
    }
    let ghost body = lines.drop_first();
    let mut colors: Vec<[u8; 3]> = Vec::new();
    let mut i: usize = 1;
    while i < spans.len()
        invariant
            v@ == content@,
            lines == text_lines(content@),
            body == lines.drop_first(),
            lines.len() > 0 && lines[0] == "GIMP Palette"@,
            spans_are(v@, spans@, lines),
            1 <= i <= spans@.len(),
            gpl_colors(body.take(i - 1)) == Ok::<Seq<[u8; 3]>, Seq<char>>(colors@),
        decreases spans@.len() - i,
    {
        let (a, b) = spans[i];
        let line = chars_slice(&v, a, b);
        assert(line@ == body[i - 1]);
        assert(body.take(i as int).drop_last() == body.take(i - 1));
        assert(body.take(i as int).last() == body[i - 1]);
        if chars_start_with(&line, "#") || chars_start_with(&line, "Name:") || chars_start_with(&line, "Columns:") {
        } else {
            match read_rgb(&line) {
                Some((c, _)) => {
                    colors.push(c);
                },
                None => {
                    let mut m = String::from_str("Invalid GIMP palette line '");
                    m.append(content.substring_char(a, b));
                    m.append("'");
                    proof {
                        assert(!gpl_skipped(body[i - 1]));
                        assert(rgb_at_start(body[i - 1]) is None);
                        assert(m@ == gpl_line_fault(body[i - 1]));
                        assert(gpl_colors(body.take(i as int)) == Err::<Seq<[u8; 3]>, Seq<char>>(gpl_line_fault(body[i - 1])));
                        lemma_gpl_error_sticks(body, i as int);
                        assert(body.take(body.len() as int) == body);
                    }
                    return Err(PixelSnapperError::InvalidInput(m));
                },
            }
        }
        i = i + 1;
    }
    assert(body.take(i - 1) == body);
    Ok(colors)
}

/// Message for a line of a JASC palette that is not a colour.
pub open spec fn pal_line_fault(line: Seq<char>) -> Seq<char> {
    "Invalid JASC palette line '"@ + line + "'"@
}

/// The colour of a JASC palette line: exactly three numbers 0..=255
/// separated by white space.
pub open spec fn pal_color(line: Seq<char>) -> Option<[u8; 3]> {
    match rgb_at_start(line) {
        Some((c, j)) => if j == line.len() {
            Some(c)
        } else {
            None
        },
        None => None,
    }
}

/// The colours of the colour lines of a JASC palette, or the message for the
/// first line that is not a colour.
pub open spec fn pal_colors(lines: Seq<Seq<char>>) -> Result<Seq<[u8; 3]>, Seq<char>>
    decreases lines.len(),
{
    if lines.len() == 0 {
        Ok(Seq::empty())
    } else {
        match pal_colors(lines.drop_last()) {
            Err(m) => Err(m),
            Ok(colors) => match pal_color(lines.last()) {
                Some(c) => Ok(colors.push(c)),
                None => Err(pal_line_fault(lines.last())),
            },
        }
    }
}

/// What reading a JASC `.pal` palette gives: the line `JASC-PAL`, a version
/// line, the number of colours, then one colour per line; the number must
/// match the colours listed.
pub open spec fn pal_listing(s: Seq<char>) -> Result<Seq<[u8; 3]>, Seq<char>> {
    let lines = text_lines(s);
    if !(lines.len() > 0 && lines[0] == "JASC-PAL"@) {
        Err("Not a JASC palette (missing 'JASC-PAL' header)"@)
    } else if lines.len() < 3 {
        Err("JASC palette is missing its color count"@)
    } else {
        match u64_value(lines[2]) {
            None => Err("Invalid JASC palette color count '"@ + lines[2] + "'"@),
            Some(n) => match pal_colors(lines.skip(3)) {
                Err(m) => Err(m),
                Ok(colors) => if n == colors.len() {
                    Ok(colors)
                } else {
                    Err("JASC palette declares "@ + lines[2] + " colors but lists "@ + decimal(colors.len()))
                },
            },
        }
    }
}

proof fn lemma_pal_error_sticks(lines: Seq<Seq<char>>, n: int)
    requires
        0 <= n <= lines.len(),
        pal_colors(lines.take(n)) is Err,
    ensures
        pal_colors(lines) == pal_colors(lines.take(n)),
    decreases lines.len() - n,
{
    if n < lines.len() {
        assert(lines.take(n + 1).drop_last() == lines.take(n));
        lemma_pal_error_sticks(lines, n + 1);
    } else {
        assert(lines.take(n) == lines);
    }
}

/// Parse the text of a JASC `.pal` palette file.
pub fn parse_pal_palette(content: &str) -> (res: Result<Vec<[u8; 3]>, PixelSnapperError>)
    ensures
        match pal_listing(content@) {
            Ok(colors) => res matches Ok(v) && v@ == colors,
            Err(m) => res matches Err(PixelSnapperError::InvalidInput(e)) && e@ == m,
        },
{
    let v = chars_of(content);
    let spans = token_spans(&v, '\n', false);
    let ghost lines = text_lines(content@);
    if spans.len() == 0 || !chars_equal(&chars_slice(&v, spans[0].0, spans[0].1), "JASC-PAL") {
        return Err(PixelSnapperError::InvalidInput(String::from_str("Not a JASC palette (missing 'JASC-PAL' header)")));
    }
    if spans.len() < 3 {
        return Err(PixelSnapperError::InvalidInput(String::from_str("JASC palette is missing its color count")));
    }
    let count_text = content.substring_char(spans[2].0, spans[2].1);
    let declared = match parse_u64(count_text) {
        Some(n) => n,
        None => {
            let mut m = String::from_str("Invalid JASC palette color count '");
            m.append(count_text);
            m.append("'");
            return Err(PixelSnapperError::InvalidInput(m));
        },
    };
    let ghost body = lines.skip(3);
    let mut colors: Vec<[u8; 3]> = Vec::new();
    let mut i: usize = 3;
    while i < spans.len()
        invariant
            v@ == content@,
            lines == text_lines(content@),
            body == lines.skip(3),
            lines.len() >= 3 && lines[0] == "JASC-PAL"@,
            count_text@ == lines[2],
            u64_value(lines[2]) == Some(declared),
            spans_are(v@, spans@, lines),
            3 <= i <= spans@.len(),
            pal_colors(body.take(i - 3)) == Ok::<Seq<[u8; 3]>, Seq<char>>(colors@),
            colors@.len() <= i,
        decreases spans@.len() - i,
    {
        let (a, b) = spans[i];
        let line = chars_slice(&v, a, b);
        assert(line@ == body[i - 3]);
        assert(body.take(i - 2).drop_last() == body.take(i - 3));
        assert(body.take(i - 2).last() == body[i - 3]);
        match read_rgb(&line) {
            Some((c, j)) => {
                if j == line.len() {
                    colors.push(c);
                } else {
                    let mut m = String::from_str("Invalid JASC palette line '");
                    m.append(content.substring_char(a, b));
                    m.append("'");
                    proof {
                        assert(pal_color(body[i - 3]) is None);
                        assert(pal_colors(body.take(i - 2)) == Err::<Seq<[u8; 3]>, Seq<char>>(pal_line_fault(body[i - 3])));
                        lemma_pal_error_sticks(body, i - 2);
                    }
                    return Err(PixelSnapperError::InvalidInput(m));
                }
            },
            None => {
                let mut m = String::from_str("Invalid JASC palette line '");
                m.append(content.substring_char(a, b));
                m.append("'");
                proof {
                    assert(pal_color(body[i - 3]) is None);
                    assert(pal_colors(body.take(i - 2)) == Err::<Seq<[u8; 3]>, Seq<char>>(pal_line_fault(body[i - 3])));
                    lemma_pal_error_sticks(body, i - 2);
                }
                return Err(PixelSnapperError::InvalidInput(m));
            },
        }
        i = i + 1;
    }
    assert(body.take(i - 3) == body);
    if declared != colors.len() as u64 {
        let mut m = String::from_str("JASC palette declares ");
        m.append(count_text);
        m.append(" colors but lists ");
        push_decimal(&mut m, colors.len());
        return Err(PixelSnapperError::InvalidInput(m));
    }
    Ok(colors)
}

/// The colours of `cs` without repeats, each where it first occurs.
pub open spec fn distinct_colors(cs: Seq<[u8; 3]>) -> Seq<[u8; 3]>
    decreases cs.len(),
{
    if cs.len() == 0 {
        Seq::empty()
    } else {
        let d = distinct_colors(cs.drop_last());
        if d.contains(cs.last()) {
            d
        } else {
            d.push(cs.last())
        }
    }
}

/// The distinct colours of a list hold no colour twice, and hold exactly the
/// colours of the list.
pub proof fn law_distinct_colors(cs: Seq<[u8; 3]>)
    ensures
        forall|i: int, j: int| 0 <= i < j < distinct_colors(cs).len() ==> distinct_colors(cs)[i] != distinct_colors(cs)[j],
        forall|c: [u8; 3]| distinct_colors(cs).contains(c) <==> cs.contains(c),
    decreases cs.len(),
{
    if cs.len() > 0 {
        let rest = cs.drop_last();
        law_distinct_colors(rest);
        let d = distinct_colors(rest);
        assert forall|c: [u8; 3]| distinct_colors(cs).contains(c) <==> cs.contains(c) by {
            if cs.contains(c) {
                let k = choose|k: int| 0 <= k < cs.len() && cs[k] == c;
                if k < cs.len() - 1 {
                    assert(rest[k] == c);
                    assert(rest.contains(c));
                    assert(d.contains(c));
                    if !d.contains(cs.last()) {
                        let m = choose|m: int| 0 <= m < d.len() && d[m] == c;
                        assert(d.push(cs.last())[m] == c);
                    }
                } else if !d.contains(cs.last()) {
                    assert(d.push(cs.last())[d.len() as int] == c);
                }
            }
            if distinct_colors(cs).contains(c) {
                let m = choose|m: int| 0 <= m < distinct_colors(cs).len() && distinct_colors(cs)[m] == c;
                if m < d.len() {
                    assert(d[m] == c);
                    assert(rest.contains(c));
                    let k = choose|k: int| 0 <= k < rest.len() && rest[k] == c;
                    assert(cs[k] == c);
                } else {
                    assert(cs[cs.len() - 1] == c);
                }
            }
        }
    }
}

/// Colours keep the order of their first occurrence: the distinct colours
/// of any prefix of the list are a prefix of the distinct colours of the
/// whole list.
pub proof fn law_distinct_colors_keep_first_occurrences(cs: Seq<[u8; 3]>, k: int)
    requires
        0 <= k <= cs.len(),
    ensures
        distinct_colors(cs.take(k)).len() <= distinct_colors(cs).len(),
        distinct_colors(cs.take(k)) == distinct_colors(cs).take(distinct_colors(cs.take(k)).len() as int),
    decreases cs.len() - k,
{
    if k < cs.len() {
        law_distinct_colors_keep_first_occurrences(cs, k + 1);
        assert(cs.take(k + 1).drop_last() == cs.take(k));
        let a = distinct_colors(cs.take(k));
        let b = distinct_colors(cs.take(k + 1));
        let full = distinct_colors(cs);
        if b != a {
            assert(b.drop_last() == a);
            assert(a == full.take(a.len() as int)) by {
                assert forall|j: int| 0 <= j < a.len() implies a[j] == full[j] by {
                    assert(b[j] == a[j]);
                }
            }
        }
    } else {
        assert(cs.take(k) == cs);
        assert(distinct_colors(cs).take(distinct_colors(cs).len() as int) == distinct_colors(cs));
    }
}

/// A number that tells colours apart: `0xRRGGBB`.
pub open spec fn color_key(c: [u8; 3]) -> int {
    c[0] * 65536 + c[1] * 256 + c[2]
}

proof fn lemma_color_key_injective(a: [u8; 3], b: [u8; 3])
    requires
        color_key(a) == color_key(b),
    ensures
        a == b,
{
    assert(a[0] == b[0]);
    assert(a[1] == b[1]);
    assert(a[2] == b[2]);
    assert(a =~= b);
}

/// The colours of `colors` without repeats, in the order they first occur.
pub fn dedup_colors(colors: &Vec<[u8; 3]>) -> (out: Vec<[u8; 3]>)
    ensures
        out@ == distinct_colors(colors@),
{
    broadcast use vstd::std_specs::hash::group_hash_axioms;

    let mut seen: HashSet<u32> = HashSet::new();
    let mut out: Vec<[u8; 3]> = Vec::new();
    let mut i: usize = 0;
    while i < colors.len()
        invariant
            i <= colors@.len(),
            out@ == distinct_colors(colors@.take(i as int)),
            forall|k: u32| #[trigger] seen@.contains(k) <==> exists|j: int| 0 <= j < out@.len() && color_key(out@[j]) == k,
        decreases colors@.len() - i,
    {
        let c = colors[i];
        assert(colors@.take(i + 1).drop_last() == colors@.take(i as int));
        assert(colors@.take(i + 1).last() == c);
        let key: u32 = (c[0] as u32) * 65536 + (c[1] as u32) * 256 + (c[2] as u32);
        assert(key == color_key(c));
        if seen.contains(&key) {
            proof {
                let j = choose|j: int| 0 <= j < out@.len() && color_key(out@[j]) == key;
                lemma_color_key_injective(out@[j], c);
                assert(out@.contains(c));
            }
        } else {
            assert(!out@.contains(c)) by {
                if out@.contains(c) {
                    let j = choose|j: int| 0 <= j < out@.len() && out@[j] == c;
                    assert(seen@.contains(key));
                }
            }
            let ghost old_out = out@;
            let ghost old_seen = seen@;
            seen.insert(key);
            out.push(c);
            assert forall|k: u32| #[trigger] seen@.contains(k) <==> exists|j: int| 0 <= j < out@.len() && color_key(out@[j]) == k by {
                if seen@.contains(k) {
                    if k == key {
                        assert(color_key(out@[out@.len() - 1]) == k);
                    } else {
                        assert(old_seen.contains(k));
                        let j = choose|j: int| 0 <= j < old_out.len() && color_key(old_out[j]) == k;
                        assert(out@[j] == old_out[j]);
                    }
                }
                if exists|j: int| 0 <= j < out@.len() && color_key(out@[j]) == k {
                    let j = choose|j: int| 0 <= j < out@.len() && color_key(out@[j]) == k;
                    if j < old_out.len() {
                        assert(old_out[j] == out@[j]);
                        assert(old_seen.contains(k));
                    }
                }
            }
        }
        i = i + 1;
    }
    assert(colors@.take(colors@.len() as int) == colors@);
    out
}

/// Number of colours an image palette is reduced to when it has more.
pub const IMAGE_PALETTE_COLORS: usize = 64;

/// The palette an image offers before any reduction: the distinct colours of
/// its opaque pixels, in the order they first occur.
pub fn image_palette_colors(img: &RgbaImage) -> (colors: Vec<[u8; 3]>)
    requires
        img.wf(),
    ensures
        colors@ == distinct_colors(opaque_colors(img@.pixels)),
{
    let opaque = opaque_pixel_colors(img);
    dedup_colors(&opaque)
}

/// The number of colours to extract from an image: `max_colors`, or
/// `IMAGE_PALETTE_COLORS` when it is not given; it must be from 1 to 256.
pub fn palette_extraction_limit(max_colors: Option<u32>) -> (res: Result<usize, String>)
    ensures
        match max_colors {
            None => res == Ok::<usize, String>(IMAGE_PALETTE_COLORS),
            Some(n) => if 1 <= n <= 256 {
                res == Ok::<usize, String>(n as usize)
            } else {
                res matches Err(m) && m@ == "maxColors must be between 1 and 256"@
            },
        },
{
    match max_colors {
        None => Ok(IMAGE_PALETTE_COLORS),
        Some(n) => if 1 <= n && n <= 256 {
            Ok(n as usize)
        } else {
            Err(String::from_str("maxColors must be between 1 and 256"))
        },
    }
}

} // verus!
