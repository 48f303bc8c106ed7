use vstd::prelude::*;
use vstd::arithmetic::div_mod::lemma_fundamental_div_mod_converse;
use vstd::multiset::Multiset;

use crate::error::PixelSnapperError;
use crate::color::{choices_fit, law_painted_pixels_use_palette, painted, rgb_of};
use crate::raster::{Raster, RgbaImage};

verus! {

broadcast use vstd::seq_lib::group_to_multiset_ensures, vstd::multiset::group_multiset_axioms, vstd::multiset::group_multiset_properties;

/// Lexicographic order on RGBA values, channel by channel.
pub open spec fn color_le(a: [u8; 4], b: [u8; 4]) -> bool {
    ||| a[0] < b[0]
    ||| a[0] == b[0] && a[1] < b[1]
    ||| a[0] == b[0] && a[1] == b[1] && a[2] < b[2]
    ||| a[0] == b[0] && a[1] == b[1] && a[2] == b[2] && a[3] <= b[3]
}

/// In-bounds pixels of row `y` at columns `xs .. x`, left to right.
pub open spec fn row_colors(r: Raster, y: int, xs: int, x: int) -> Seq<[u8; 4]>
    decreases x - xs,
{
    if x <= xs {
        Seq::empty()
    } else if r.in_bounds(x - 1, y) {
        row_colors(r, y, xs, x - 1).push(r.at(x - 1, y))
    } else {
        row_colors(r, y, xs, x - 1)
    }
}

/// In-bounds pixels of the cell `[xs, xe) x [ys, y)`, row by row.
pub open spec fn cell_colors(r: Raster, xs: int, xe: int, ys: int, y: int) -> Seq<[u8; 4]>
    decreases y - ys,
{
    if y <= ys {
        Seq::empty()
    } else {
        cell_colors(r, xs, xe, ys, y - 1) + row_colors(r, y - 1, xs, xe)
    }
}

/// `c` occurs most often in `m`; among equally frequent colours it is the
/// smallest in channel order.
pub open spec fn is_majority(m: Multiset<[u8; 4]>, c: [u8; 4]) -> bool {
    &&& m.count(c) > 0
    &&& forall|d: [u8; 4]| #[trigger] m.count(d) > 0 ==> (m.count(d) < m.count(c) || (m.count(d)
        == m.count(c) && color_le(c, d)))
}

/// The majority colour of a list of pixels; transparent black when it is empty.
pub open spec fn majority_color(s: Seq<[u8; 4]>) -> [u8; 4] {
    if s.len() == 0 {
        [0u8, 0u8, 0u8, 0u8]
    } else {
        choose|c: [u8; 4]| is_majority(s.to_multiset(), c)
    }
}

/// The output pixel for grid cell `(x, y)`.
pub open spec fn cell_pixel(r: Raster, cols: Seq<usize>, rows: Seq<usize>, x: int, y: int) -> [u8; 4] {
    majority_color(cell_colors(r, cols[x] as int, cols[x + 1] as int, rows[y] as int, rows[y + 1] as int))
}

/// The image that resampling `r` on the grid `cols` x `rows` produces: one
/// pixel per cell, the cell's majority colour.
pub open spec fn resampled(r: Raster, cols: Seq<usize>, rows: Seq<usize>) -> Raster {
    let w = (cols.len() - 1) as nat;
    let h = (rows.len() - 1) as nat;
    Raster {
        width: w,
        height: h,
        pixels: Seq::new(w * h, |i: int| cell_pixel(r, cols, rows, i % (w as int), i / (w as int))),
    }
}

proof fn lemma_color_le_antisymmetric(a: [u8; 4], b: [u8; 4])
    requires
        color_le(a, b),
        color_le(b, a),
    ensures
        a == b,
{
    assert(a@ =~= b@);
}

/// At most one colour is the majority colour.
pub proof fn lemma_majority_unique(m: Multiset<[u8; 4]>, c: [u8; 4], d: [u8; 4])
    requires
        is_majority(m, c),
        is_majority(m, d),
    ensures
        c == d,
{
    assert(m.count(d) > 0);
    assert(m.count(c) > 0);
    lemma_color_le_antisymmetric(c, d);
}

/// A majority colour of a non-empty list is its `majority_color`.
pub proof fn lemma_majority_color_is(s: Seq<[u8; 4]>, c: [u8; 4])
    requires
        is_majority(s.to_multiset(), c),
    ensures
        majority_color(s) == c,
{
    assert(s.to_multiset().len() == s.len());
    let d = choose|d: [u8; 4]| is_majority(s.to_multiset(), d);
    lemma_majority_unique(s.to_multiset(), c, d);
}

proof fn lemma_row_len(r: Raster, y: int, xs: int, x: int)
    requires
        0 <= xs,
    ensures
        row_colors(r, y, xs, x).len() <= (if x <= r.width { if x >= 0 { x } else { 0 } } else { r.width as int }),
    decreases x - xs,
{
    if x > xs {
        lemma_row_len(r, y, xs, x - 1);
    }
}

proof fn lemma_cell_len(r: Raster, xs: int, xe: int, ys: int, y: int)
    requires
        0 <= xs,
        0 <= ys,
    ensures
        cell_colors(r, xs, xe, ys, y).len() <= r.width * (if y >= 0 { y } else { 0 }),
    decreases y - ys,
{
    if y > ys {
        lemma_cell_len(r, xs, xe, ys, y - 1);
        lemma_row_len(r, y - 1, xs, xe);
        assert(r.width * (y - 1) + r.width == r.width * y) by (nonlinear_arith);
    }
}

/// `table` lists each colour of `seen` once, with its number of occurrences.
spec fn tallies(table: Seq<([u8; 4], usize)>, seen: Seq<[u8; 4]>) -> bool {
    &&& forall|a: int, b: int| 0 <= a < b < table.len() ==> table[a].0 != table[b].0
    &&& forall|a: int| 0 <= a < table.len() ==> #[trigger] table[a].1 == seen.to_multiset().count(table[a].0)
    &&& forall|a: int| 0 <= a < table.len() ==> #[trigger] table[a].1 > 0
    &&& forall|c: [u8; 4]| #[trigger] seen.to_multiset().count(c) > 0 ==> exists|a: int|
        0 <= a < table.len() && table[a].0 == c
}

fn color_eq(a: [u8; 4], b: [u8; 4]) -> (eq: bool)
    ensures
        eq == (a == b),
{
    let eq = a[0] == b[0] && a[1] == b[1] && a[2] == b[2] && a[3] == b[3];
    proof {
        if eq {
            assert(a =~= b);
        }
        if a == b {
            assert(a[0] == b[0] && a[1] == b[1] && a[2] == b[2] && a[3] == b[3]);
        }
    }
    eq
}

fn color_lt(a: [u8; 4], b: [u8; 4]) -> (lt: bool)
    ensures
        lt == (color_le(a, b) && a != b),
{
    let lt = if a[0] != b[0] {
        a[0] < b[0]
    } else if a[1] != b[1] {
        a[1] < b[1]
    } else if a[2] != b[2] {
        a[2] < b[2]
    } else {
        a[3] < b[3]
    };
    proof {
        if a == b {
            assert(a[0] == b[0] && a[1] == b[1] && a[2] == b[2] && a[3] == b[3]);
        }
        if a[0] == b[0] && a[1] == b[1] && a[2] == b[2] && a[3] == b[3] {
            assert(a =~= b);
        }
    }
    lt
}

/// Adds one occurrence of `p` to the tallies.
fn tally(table: &mut Vec<([u8; 4], usize)>, p: [u8; 4], Ghost(seen): Ghost<Seq<[u8; 4]>>)
    requires
        tallies(old(table)@, seen),
        seen.len() < usize::MAX,
    ensures
        tallies(final(table)@, seen.push(p)),
{
    let ghost s2 = seen.push(p);
    assert(s2.to_multiset() == seen.to_multiset().insert(p));
    let mut a: usize = 0;
    while a < table.len()
        invariant
            a <= table@.len(),
            table@ == old(table)@,
            tallies(old(table)@, seen),
            seen.len() < usize::MAX,
            s2 == seen.push(p),
            forall|b: int| 0 <= b < a ==> table@[b].0 != p,
        decreases table@.len() - a,
    {
        if color_eq(table[a].0, p) {
            let n = table[a].1;
            assert(n <= seen.len()) by {
                assert(old(table)@[a as int].1 == seen.to_multiset().count(old(table)@[a as int].0));
                assert(seen.to_multiset().count(p) <= seen.to_multiset().len());
                assert(seen.to_multiset().len() == seen.len());
            }
            table.set(a, (p, n + 1));
            proof {
                assert forall|c: [u8; 4]| #[trigger] s2.to_multiset().count(c) > 0 implies exists|b: int|
                    0 <= b < table@.len() && table@[b].0 == c by {
                    if c != p {
                        assert(seen.to_multiset().count(c) > 0);
                        let b = choose|b: int| 0 <= b < old(table)@.len() && old(table)@[b].0 == c;
                        assert(table@[b].0 == c);
                    } else {
                        assert(table@[a as int].0 == c);
                    }
                }
                assert forall|b: int| 0 <= b < table@.len() implies #[trigger] table@[b].1
                    == s2.to_multiset().count(table@[b].0) by {
                    if b != a {
                        assert(table@[b] == old(table)@[b]);
                    }
                }
            }
            return;
        }
        a = a + 1;
    }
    assert(seen.to_multiset().count(p) == 0) by {
        if seen.to_multiset().count(p) > 0 {
            let b = choose|b: int| 0 <= b < old(table)@.len() && old(table)@[b].0 == p;
        }
    }
    table.push((p, 1));
    proof {
        assert forall|c: [u8; 4]| #[trigger] s2.to_multiset().count(c) > 0 implies exists|b: int|
            0 <= b < table@.len() && table@[b].0 == c by {
            if c != p {
                assert(seen.to_multiset().count(c) > 0);
                let b = choose|b: int| 0 <= b < old(table)@.len() && old(table)@[b].0 == c;
                assert(table@[b].0 == c);
            } else {
                assert(table@[table@.len() - 1].0 == c);
            }
        }
        assert forall|b: int| 0 <= b < table@.len() implies #[trigger] table@[b].1
            == s2.to_multiset().count(table@[b].0) by {
            if b < old(table)@.len() {
                assert(table@[b] == old(table)@[b]);
            }
        }
    }
}

/// The majority colour of the in-bounds pixels of the cell `[xs, xe) x [ys, ye)`.
fn cell_majority(img: &RgbaImage, xs: usize, xe: usize, ys: usize, ye: usize) -> (c: [u8; 4])
    requires
        img.wf(),
    ensures
        c == majority_color(cell_colors(img@, xs as int, xe as int, ys as int, ye as int)),
{
    let w = img.width() as usize;
    let h = img.height() as usize;
    let mut table: Vec<([u8; 4], usize)> = Vec::new();
    let ghost mut seen: Seq<[u8; 4]> = Seq::empty();
    if ye <= ys {
        return [0u8, 0u8, 0u8, 0u8];
    }
    let mut y = ys;
    while y < ye
        invariant
            img.wf(),
            w == img@.width,
            h == img@.height,
            ys <= y <= ye,
            seen == cell_colors(img@, xs as int, xe as int, ys as int, y as int),
            tallies(table@, seen),
        decreases ye - y,
    {
        let mut x = xs;
        while x < xe
            invariant
                img.wf(),
                w == img@.width,
                h == img@.height,
                ys <= y < ye,
                xs <= x,
                x <= xe || x == xs,
                seen == cell_colors(img@, xs as int, xe as int, ys as int, y as int) + row_colors(
                    img@,
                    y as int,
                    xs as int,
                    x as int,
                ),
                tallies(table@, seen),
            decreases xe - x,
        {
            if x < w && y < h {
                let p = img.get_pixel(x as u32, y as u32);
                proof {
                    lemma_cell_len(img@, xs as int, xe as int, ys as int, y as int);
                    lemma_row_len(img@, y as int, xs as int, x as int);
                    assert(w * y + x < w * h) by (nonlinear_arith)
                        requires
                            x < w,
                            y < h,
                    ;
                    assert(img@.width * img@.height <= usize::MAX) by (nonlinear_arith)
                        requires
                            4 * img@.width * img@.height <= usize::MAX,
                    ;
                }
                tally(&mut table, p, Ghost(seen));
                proof {
                    seen = seen.push(p);
                    assert(seen == cell_colors(img@, xs as int, xe as int, ys as int, y as int) + row_colors(
                        img@,
                        y as int,
                        xs as int,
                        x + 1,
                    ));
                }
            } else {
                assert(row_colors(img@, y as int, xs as int, x + 1) == row_colors(img@, y as int, xs as int, x as int));
            }
            x = x + 1;
        }
        assert(row_colors(img@, y as int, xs as int, x as int) == row_colors(img@, y as int, xs as int, xe as int));
        y = y + 1;
    }
    if table.len() == 0 {
        proof {
            if seen.len() > 0 {
                assert(seen.to_multiset().count(seen[0]) > 0);
            }
        }
        return [0u8, 0u8, 0u8, 0u8];
    }
    let mut best: usize = 0;
    let mut a: usize = 1;
    while a < table.len()
        invariant
            1 <= a <= table@.len(),
            best < a,
            forall|b: int| 0 <= b < a ==> table@[b].1 < table@[best as int].1 || (table@[b].1
                == table@[best as int].1 && color_le(table@[best as int].0, table@[b].0)),
        decreases table@.len() - a,
    {
        let (c, n) = table[a];
        let (bc, bn) = table[best];
        if n > bn || (n == bn && color_lt(c, bc)) {
            proof {
                assert forall|b: int| 0 <= b < a + 1 implies table@[b].1 < table@[a as int].1 || (
                table@[b].1 == table@[a as int].1 && color_le(table@[a as int].0, table@[b].0)) by {
                    if b < a && table@[b].1 == n {
                        assert(color_le(c, bc));
                    }
                }
            }
            best = a;
        }
        a = a + 1;
    }
    let winner = table[best].0;
    proof {
        let m = seen.to_multiset();
        assert(m.count(winner) > 0);
        assert forall|d: [u8; 4]| #[trigger] m.count(d) > 0 implies (m.count(d) < m.count(winner) || (
        m.count(d) == m.count(winner) && color_le(winner, d))) by {
            let b = choose|b: int| 0 <= b < table@.len() && table@[b].0 == d;
            assert(table@[b].1 == m.count(d));
        }
        lemma_majority_color_is(seen, winner);
    }
    winner
}

/// Builds the output image: one pixel per grid cell, the colour that occurs
/// most often in the cell (ties go to the smallest colour in channel order).
/// Cells that are empty or lie outside the image come out transparent black.
pub fn resample(img: &RgbaImage, cols: &[usize], rows: &[usize]) -> (res: Result<RgbaImage, PixelSnapperError>)
    requires
        img.wf(),
        cols@.len() >= 2 ==> cols@.len() - 1 <= u32::MAX,
        rows@.len() >= 2 ==> rows@.len() - 1 <= u32::MAX,
        cols@.len() >= 2 && rows@.len() >= 2 ==> 4 * (cols@.len() - 1) * (rows@.len() - 1) <= usize::MAX,
    ensures
        res is Err <==> (cols@.len() < 2 || rows@.len() < 2),
        res matches Err(e) ==> (e matches PixelSnapperError::ProcessingError(m) && m@
            == "Insufficient grid cuts for resampling"@),
        res matches Ok(out) ==> out.wf() && out@ == resampled(img@, cols@, rows@),
{
    if cols.len() < 2 || rows.len() < 2 {
        return Err(PixelSnapperError::ProcessingError(String::from_str("Insufficient grid cuts for resampling")));
    }
    let out_w = cols.len() - 1;
    let out_h = rows.len() - 1;
    proof {
        assert(out_w * out_h <= 4 * out_w * out_h) by (nonlinear_arith);
    }
    let total = out_w * out_h;
    let mut pixels: Vec<[u8; 4]> = Vec::with_capacity(total);
    let mut yi: usize = 0;
    while yi < out_h
        invariant
            img.wf(),
            out_w == cols@.len() - 1,
            out_h == rows@.len() - 1,
            out_w >= 1,
            total == out_w * out_h,
            yi <= out_h,
            pixels@.len() == yi * out_w,
            forall|k: int| 0 <= k < pixels@.len() ==> #[trigger] pixels@[k] == cell_pixel(
                img@,
                cols@,
                rows@,
                k % (out_w as int),
                k / (out_w as int),
            ),
        decreases out_h - yi,
    {
        let mut xi: usize = 0;
        while xi < out_w
            invariant
                img.wf(),
                out_w == cols@.len() - 1,
                out_h == rows@.len() - 1,
                out_w >= 1,
                total == out_w * out_h,
                yi < out_h,
                xi <= out_w,
                pixels@.len() == yi * out_w + xi,
                forall|k: int| 0 <= k < pixels@.len() ==> #[trigger] pixels@[k] == cell_pixel(
                    img@,
                    cols@,
                    rows@,
                    k % (out_w as int),
                    k / (out_w as int),
                ),
            decreases out_w - xi,
        {
            let c = cell_majority(img, cols[xi], cols[xi + 1], rows[yi], rows[yi + 1]);
            proof {
                lemma_fundamental_div_mod_converse(
                    (yi * out_w + xi) as int,
                    out_w as int,
                    yi as int,
                    xi as int,
                );
            }
            pixels.push(c);
            xi = xi + 1;
        }
        proof {
            assert(yi * out_w + out_w == (yi + 1) * out_w) by (nonlinear_arith);
        }
        yi = yi + 1;
    }
    proof {
        assert(out_h * out_w == out_w * out_h) by (nonlinear_arith);
    }
    let out = RgbaImage::from_pixels(out_w as u32, out_h as u32, pixels);
    proof {
        assert(out@.pixels =~= resampled(img@, cols@, rows@).pixels);
    }
    Ok(out)
}

/// The cuts `0, 1, ..., n`: one cell per pixel.
pub open spec fn unit_cuts(n: nat) -> Seq<usize> {
    Seq::new(n + 1, |i: int| i as usize)
}

/// A list holding one colour has that colour as its majority.
pub proof fn lemma_majority_of_single(c: [u8; 4])
    ensures
        majority_color(seq![c]) == c,
{
    let s = seq![c];
    assert(s == Seq::<[u8; 4]>::empty().push(c));
    assert(Seq::<[u8; 4]>::empty().to_multiset().len() == 0);
    let m = s.to_multiset();
    assert(m.count(c) == 1);
    assert forall|d: [u8; 4]| #[trigger] m.count(d) > 0 implies (m.count(d) < m.count(c) || (m.count(d)
        == m.count(c) && color_le(c, d))) by {
        if d != c {
            assert(m.count(d) == 0);
        } else {
            assert(c[3] <= d[3]);
        }
    }
    lemma_majority_color_is(s, c);
}

/// Resampling on the grid that puts every pixel in a cell of its own gives
/// back the image.
pub proof fn law_resample_unit_grid_is_identity(r: Raster)
    requires
        r.pixels.len() == r.width * r.height,
        1 <= r.width <= usize::MAX,
        1 <= r.height <= usize::MAX,
    ensures
        resampled(r, unit_cuts(r.width), unit_cuts(r.height)) == r,
{
    lemma_unit_grid_identity(r);
}

/// For every valid image with at least one pixel, the single-pixel grid meets
/// what `resample` asks of its cuts, and resampling on it gives the image back.
pub proof fn law_resample_unit_grid_on_images(img: RgbaImage)
    requires
        img.wf(),
        img@.width >= 1,
        img@.height >= 1,
    ensures
        unit_cuts(img@.width).len() - 1 <= u32::MAX,
        unit_cuts(img@.height).len() - 1 <= u32::MAX,
        4 * (unit_cuts(img@.width).len() - 1) * (unit_cuts(img@.height).len() - 1) <= usize::MAX,
        resampled(img@, unit_cuts(img@.width), unit_cuts(img@.height)) == img@,
{
    assert(img@.width <= 4 * img@.width * img@.height) by (nonlinear_arith)
        requires
            img@.height >= 1,
    ;
    assert(img@.height <= 4 * img@.width * img@.height) by (nonlinear_arith)
        requires
            img@.width >= 1,
    ;
    lemma_unit_grid_identity(img@);
}

proof fn lemma_unit_grid_identity(r: Raster)
    requires
        r.pixels.len() == r.width * r.height,
        1 <= r.width <= usize::MAX,
        1 <= r.height <= usize::MAX,
    ensures
        resampled(r, unit_cuts(r.width), unit_cuts(r.height)) == r,
{
    let cols = unit_cuts(r.width);
    let rows = unit_cuts(r.height);
    let w = r.width as int;
    let h = r.height as int;
    let out = resampled(r, cols, rows);
    assert forall|i: int| 0 <= i < r.pixels.len() implies out.pixels[i] == r.pixels[i] by {
        let x = i % w;
        let y = i / w;
        vstd::arithmetic::div_mod::lemma_fundamental_div_mod(i, w);
        vstd::arithmetic::div_mod::lemma_mod_pos_bound(i, w);
        vstd::arithmetic::div_mod::lemma_div_pos_is_pos(i, w);
        assert(y < h) by (nonlinear_arith)
            requires
                i == w * y + x,
                0 <= x,
                i < w * h,
                w > 0,
        ;
        assert(cols[x] == x && cols[x + 1] == x + 1);
        assert(rows[y] == y && rows[y + 1] == y + 1);
        assert(r.in_bounds(x, y));
        assert(row_colors(r, y, x, x) == Seq::<[u8; 4]>::empty());
        assert(row_colors(r, y, x, x + 1) =~= seq![r.at(x, y)]);
        assert(cell_colors(r, x, x + 1, y, y) == Seq::<[u8; 4]>::empty());
        assert(cell_colors(r, x, x + 1, y, y + 1) =~= seq![r.at(x, y)]);
        lemma_majority_of_single(r.at(x, y));
        assert(r.index_of(x, y) == i) by (nonlinear_arith)
            requires
                i == w * y + x,
                r.index_of(x, y) == y * w + x,
        ;
    }
    assert(out.pixels =~= r.pixels);
}

/// A colour of `s` that no colour of `s` beats in `m`: found by scanning `s`.
spec fn best_of(s: Seq<[u8; 4]>, m: Multiset<[u8; 4]>) -> [u8; 4]
    decreases s.len(),
{
    if s.len() <= 1 {
        s[0]
    } else {
        let b = best_of(s.drop_last(), m);
        let c = s.last();
        if m.count(c) > m.count(b) || (m.count(c) == m.count(b) && color_le(c, b)) {
            c
        } else {
            b
        }
    }
}

proof fn lemma_color_le_total(a: [u8; 4], b: [u8; 4])
    ensures
        color_le(a, b) || color_le(b, a),
{
}

proof fn lemma_color_le_transitive(a: [u8; 4], b: [u8; 4], c: [u8; 4])
    requires
        color_le(a, b),
        color_le(b, c),
    ensures
        color_le(a, c),
{
}

proof fn lemma_best_of(s: Seq<[u8; 4]>, m: Multiset<[u8; 4]>)
    requires
        s.len() > 0,
    ensures
        s.contains(best_of(s, m)),
        forall|i: int| 0 <= i < s.len() ==> m.count(#[trigger] s[i]) < m.count(best_of(s, m)) || (m.count(s[i])
            == m.count(best_of(s, m)) && color_le(best_of(s, m), s[i])),
    decreases s.len(),
{
    if s.len() == 1 {
        assert(s.contains(s[0]));
        assert(color_le(s[0], s[0]));
    } else {
        let p = s.drop_last();
        lemma_best_of(p, m);
        let b = best_of(p, m);
        let c = s.last();
        let k = choose|k: int| 0 <= k < p.len() && p[k] == b;
        assert(s[k] == b);
        assert forall|i: int| 0 <= i < s.len() implies m.count(#[trigger] s[i]) < m.count(best_of(s, m)) || (m.count(s[i])
            == m.count(best_of(s, m)) && color_le(best_of(s, m), s[i])) by {
            if i < s.len() - 1 {
                assert(s[i] == p[i]);
                if m.count(c) > m.count(b) || (m.count(c) == m.count(b) && color_le(c, b)) {
                    if m.count(p[i]) == m.count(b) && m.count(c) == m.count(b) {
                        lemma_color_le_transitive(c, b, p[i]);
                    }
                }
            } else {
                lemma_color_le_total(c, b);
                assert(color_le(c, c));
            }
        }
        assert(s.contains(s[s.len() - 1]));
    }
}

/// A non-empty list has a majority colour, and it is one of its colours.
pub proof fn lemma_majority_exists(s: Seq<[u8; 4]>)
    requires
        s.len() > 0,
    ensures
        is_majority(s.to_multiset(), majority_color(s)),
        s.contains(majority_color(s)),
{
    let m = s.to_multiset();
    lemma_best_of(s, m);
    let b = best_of(s, m);
    assert(m.count(b) > 0);
    assert forall|d: [u8; 4]| #[trigger] m.count(d) > 0 implies (m.count(d) < m.count(b) || (m.count(d)
        == m.count(b) && color_le(b, d))) by {
        assert(s.contains(d));
        let i = choose|i: int| 0 <= i < s.len() && s[i] == d;
        assert(s[i] == d);
    }
    lemma_majority_color_is(s, b);
}

proof fn lemma_row_colors_from_image(r: Raster, y: int, xs: int, x: int, c: [u8; 4])
    requires
        row_colors(r, y, xs, x).contains(c),
    ensures
        exists|px: int, py: int| r.in_bounds(px, py) && r.at(px, py) == c,
    decreases x - xs,
{
    if x > xs {
        let prev = row_colors(r, y, xs, x - 1);
        if r.in_bounds(x - 1, y) {
            if c == r.at(x - 1, y) {
                assert(r.in_bounds(x - 1, y) && r.at(x - 1, y) == c);
            } else {
                let full = prev.push(r.at(x - 1, y));
                let k = choose|k: int| 0 <= k < full.len() && #[trigger] full[k] == c;
                assert(prev[k] == c);
                lemma_row_colors_from_image(r, y, xs, x - 1, c);
            }
        } else {
            lemma_row_colors_from_image(r, y, xs, x - 1, c);
        }
    }
}

proof fn lemma_cell_colors_from_image(r: Raster, xs: int, xe: int, ys: int, y: int, c: [u8; 4])
    requires
        cell_colors(r, xs, xe, ys, y).contains(c),
    ensures
        exists|px: int, py: int| r.in_bounds(px, py) && r.at(px, py) == c,
    decreases y - ys,
{
    if y > ys {
        let a = cell_colors(r, xs, xe, ys, y - 1);
        let b = row_colors(r, y - 1, xs, xe);
        let k = choose|k: int| 0 <= k < (a + b).len() && (a + b)[k] == c;
        if k < a.len() {
            assert(a[k] == c);
            lemma_cell_colors_from_image(r, xs, xe, ys, y - 1, c);
        } else {
            assert(b[k - a.len()] == c);
            lemma_row_colors_from_image(r, y - 1, xs, xe, c);
        }
    }
}

/// Every opaque pixel that resampling produces is an opaque pixel of the
/// input: when all opaque input pixels carry colours of a palette, so do all
/// opaque output pixels.
pub proof fn law_resample_keeps_palette(r: Raster, cols: Seq<usize>, rows: Seq<usize>, palette: Seq<[u8; 3]>)
    requires
        r.pixels.len() == r.width * r.height,
        cols.len() >= 2,
        rows.len() >= 2,
        forall|i: int| 0 <= i < r.pixels.len() && (#[trigger] r.pixels[i])[3] != 0 ==> palette.contains(
            rgb_of(r.pixels[i]),
        ),
    ensures
        forall|i: int| 0 <= i < resampled(r, cols, rows).pixels.len() && (#[trigger] resampled(r, cols, rows).pixels[i])[3]
            != 0 ==> palette.contains(rgb_of(resampled(r, cols, rows).pixels[i])),
{
    let out = resampled(r, cols, rows);
    let w = (cols.len() - 1) as int;
    assert forall|i: int| 0 <= i < out.pixels.len() && (#[trigger] out.pixels[i])[3] != 0 implies palette.contains(
        rgb_of(out.pixels[i]),
    ) by {
        let x = i % w;
        let y = i / w;
        let s = cell_colors(r, cols[x] as int, cols[x + 1] as int, rows[y] as int, rows[y + 1] as int);
        assert(out.pixels[i] == majority_color(s));
        if s.len() > 0 {
            lemma_majority_exists(s);
            let c = majority_color(s);
            lemma_cell_colors_from_image(r, cols[x] as int, cols[x + 1] as int, rows[y] as int, rows[y + 1] as int, c);
            let (px, py) = choose|px: int, py: int| r.in_bounds(px, py) && r.at(px, py) == c;
            crate::raster::lemma_index_in_bounds(px, py, r.width as int, r.height as int);
            assert(r.pixels[r.index_of(px, py)] == c);
        }
    }
}

/// With a palette and no colour count the output holds only palette colours:
/// every opaque pixel of the grid-resampled, palette-mapped image carries a
/// colour of the palette, whichever entries were chosen for the pixels.
pub proof fn law_palette_only_output(
    r: Raster,
    palette: Seq<[u8; 3]>,
    choices: Seq<usize>,
    cols: Seq<usize>,
    rows: Seq<usize>,
)
    requires
        r.pixels.len() == r.width * r.height,
        palette.len() > 0,
        choices_fit(r, palette, choices),
        cols.len() >= 2,
        rows.len() >= 2,
    ensures
        ({
            let out = resampled(painted(r, palette, choices), cols, rows);
            forall|i: int| 0 <= i < out.pixels.len() && (#[trigger] out.pixels[i])[3] != 0 ==> palette.contains(
                rgb_of(out.pixels[i]),
            )
        }),
{
    let m = painted(r, palette, choices);
    assert forall|i: int| 0 <= i < m.pixels.len() && (#[trigger] m.pixels[i])[3] != 0 implies palette.contains(
        rgb_of(m.pixels[i]),
    ) by {
        law_painted_pixels_use_palette(r, palette, choices, i);
    }
    law_resample_keeps_palette(m, cols, rows, palette);
}

/// Number of in-bounds pixels of colour `c` in row `y` at columns `xs .. x`.
pub open spec fn row_count(r: Raster, y: int, xs: int, x: int, c: [u8; 4]) -> nat
    decreases x - xs,
{
    if x <= xs {
        0
    } else {
        row_count(r, y, xs, x - 1, c) + (if r.in_bounds(x - 1, y) && r.at(x - 1, y) == c {
            1nat
        } else {
            0nat
        })
    }
}

/// Number of in-bounds pixels of colour `c` in the rectangle
/// `[xs, xe) x [ys, ye)`.
pub open spec fn rect_count(r: Raster, xs: int, xe: int, ys: int, ye: int, c: [u8; 4]) -> nat
    decreases ye - ys,
{
    if ye <= ys {
        0
    } else {
        rect_count(r, xs, xe, ys, ye - 1, c) + row_count(r, ye - 1, xs, xe, c)
    }
}

proof fn lemma_row_colors_count(r: Raster, y: int, xs: int, x: int, c: [u8; 4])
    ensures
        row_colors(r, y, xs, x).to_multiset().count(c) == row_count(r, y, xs, x, c),
    decreases x - xs,
{
    if x > xs {
        lemma_row_colors_count(r, y, xs, x - 1, c);
    } else {
        assert(row_colors(r, y, xs, x).to_multiset() =~= Multiset::empty());
    }
}

proof fn lemma_cell_colors_count(r: Raster, xs: int, xe: int, ys: int, ye: int, c: [u8; 4])
    ensures
        cell_colors(r, xs, xe, ys, ye).to_multiset().count(c) == rect_count(r, xs, xe, ys, ye, c),
    decreases ye - ys,
{
    if ye > ys {
        lemma_cell_colors_count(r, xs, xe, ys, ye - 1, c);
        lemma_row_colors_count(r, ye - 1, xs, xe, c);
        vstd::seq_lib::lemma_multiset_commutative(cell_colors(r, xs, xe, ys, ye - 1), row_colors(r, ye - 1, xs, xe));
    } else {
        assert(cell_colors(r, xs, xe, ys, ye).to_multiset() =~= Multiset::empty());
    }
}

/// Each output pixel is the colour that occurs most often among all the
/// in-bounds pixels of its grid cell, ties going to the smallest colour in
/// channel order: if `c` occurs in the cell of column `x` and row `y` and every
/// other colour occurs less often, or as often and not before `c`, the output
/// pixel of that cell is `c`.
pub proof fn law_cell_takes_most_frequent_colour(r: Raster, cols: Seq<usize>, rows: Seq<usize>, x: int, y: int, c: [u8; 4])
    requires
        cols.len() >= 2,
        rows.len() >= 2,
        0 <= x < cols.len() - 1,
        0 <= y < rows.len() - 1,
        rect_count(r, cols[x] as int, cols[x + 1] as int, rows[y] as int, rows[y + 1] as int, c) > 0,
        forall|d: [u8; 4]|
            d != c ==> #[trigger] rect_count(r, cols[x] as int, cols[x + 1] as int, rows[y] as int, rows[y + 1] as int, d)
                < rect_count(r, cols[x] as int, cols[x + 1] as int, rows[y] as int, rows[y + 1] as int, c) || (rect_count(
                r,
                cols[x] as int,
                cols[x + 1] as int,
                rows[y] as int,
                rows[y + 1] as int,
                d,
            ) == rect_count(r, cols[x] as int, cols[x + 1] as int, rows[y] as int, rows[y + 1] as int, c) && color_le(c, d)),
    ensures
        resampled(r, cols, rows).pixels.len() == (cols.len() - 1) * (rows.len() - 1),
        resampled(r, cols, rows).pixels[y * (cols.len() - 1) + x] == c,
{
    let w = (cols.len() - 1) as int;
    let h = (rows.len() - 1) as int;
    let (xs, xe, ys, ye) = (cols[x] as int, cols[x + 1] as int, rows[y] as int, rows[y + 1] as int);
    let s = cell_colors(r, xs, xe, ys, ye);
    let m = s.to_multiset();
    assert forall|d: [u8; 4]| #[trigger] m.count(d) == rect_count(r, xs, xe, ys, ye, d) by {
        lemma_cell_colors_count(r, xs, xe, ys, ye, d);
    }
    assert(color_le(c, c));
    assert(is_majority(m, c));
    lemma_majority_color_is(s, c);
    let i = y * w + x;
    assert(0 <= i < w * h) by (nonlinear_arith)
        requires
            0 <= x < w,
            0 <= y < h,
            i == y * w + x,
    ;
    lemma_fundamental_div_mod_converse(i, w, y, x);
}

/// A grid cell that holds no pixel of the image (outside it, or empty) comes
/// out transparent black.
pub proof fn law_empty_cell_is_transparent(r: Raster, cols: Seq<usize>, rows: Seq<usize>, x: int, y: int)
    requires
        cols.len() >= 2,
        rows.len() >= 2,
        0 <= x < cols.len() - 1,
        0 <= y < rows.len() - 1,
        forall|d: [u8; 4]| #[trigger] rect_count(r, cols[x] as int, cols[x + 1] as int, rows[y] as int, rows[y + 1] as int, d) == 0,
    ensures
        resampled(r, cols, rows).pixels[y * (cols.len() - 1) + x] == [0u8, 0u8, 0u8, 0u8],
{
    let w = (cols.len() - 1) as int;
    let h = (rows.len() - 1) as int;
    let (xs, xe, ys, ye) = (cols[x] as int, cols[x + 1] as int, rows[y] as int, rows[y + 1] as int);
    let s = cell_colors(r, xs, xe, ys, ye);
    if s.len() > 0 {
        lemma_cell_colors_count(r, xs, xe, ys, ye, s[0]);
        assert(s.to_multiset().count(s[0]) > 0);
    }
    let i = y * w + x;
    assert(0 <= i < w * h) by (nonlinear_arith)
        requires
            0 <= x < w,
            0 <= y < h,
            i == y * w + x,
    ;
    lemma_fundamental_div_mod_converse(i, w, y, x);
}

/// Ties between equally frequent colours go to the smallest colour, compared
/// channel by channel (red, then green, then blue, then alpha): when `a` and
/// `b` first differ in channel `k`, `a` comes first exactly when its value
/// there is smaller.
pub proof fn law_tie_order_is_channel_by_channel(a: [u8; 4], b: [u8; 4], k: int)
    requires
        0 <= k < 4,
        forall|j: int| 0 <= j < k ==> a[j] == b[j],
        a[k] != b[k],
    ensures
        color_le(a, b) <==> a[k] < b[k],
{
    if k >= 1 {
        assert(a[0] == b[0]);
    }
    if k >= 2 {
        assert(a[1] == b[1]);
    }
    if k >= 3 {
        assert(a[2] == b[2]);
    }
}

} // verus!
