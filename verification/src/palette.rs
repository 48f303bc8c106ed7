use vstd::prelude::*;

use crate::error::PixelSnapperError;
use crate::palette_formats::{gpl_listing, pal_listing, parse_gpl_palette, parse_pal_palette};
use crate::text::{chars_of, decimal, is_white_space, trim_end, trim_start, eq_ignore_ascii_case, eq_ignore_case, push_decimal, split_at_char, split_bounds, trim_bounds, trimmed};

verus! {

broadcast use vstd::string::group_string_axioms;

/// Why a hex colour was rejected.
pub enum HexColorFault {
    /// The digits hold a non-ASCII character.
    NonAscii,
    /// Neither 3 nor 6 digits.
    WrongLength,
    /// A digit is not a hexadecimal digit.
    NonHex,
}

/// Value of a hexadecimal digit.
pub open spec fn hex_digit_value(c: char) -> Option<u8> {
    if '0' <= c <= '9' {
        Some((c as int - '0' as int) as u8)
    } else if 'a' <= c <= 'f' {
        Some((c as int - 'a' as int + 10) as u8)
    } else if 'A' <= c <= 'F' {
        Some((c as int - 'A' as int + 10) as u8)
    } else {
        None
    }
}

/// The byte that the two hexadecimal digits `a` and `b` denote, if both are
/// hexadecimal digits.
pub open spec fn hex_byte(a: char, b: char) -> Option<u8> {
    match (hex_digit_value(a), hex_digit_value(b)) {
        (Some(x), Some(y)) => Some((16 * x + y) as u8),
        _ => None,
    }
}

/// `s` without its leading `#` characters.
pub open spec fn strip_hashes(s: Seq<char>) -> Seq<char>
    decreases s.len(),
{
    if s.len() > 0 && s[0] == '#' {
        strip_hashes(s.drop_first())
    } else {
        s
    }
}

/// The digits of a hex colour: the text trimmed, then without leading `#`.
pub open spec fn hex_digits(s: Seq<char>) -> Seq<char> {
    strip_hashes(trimmed(s))
}

/// Whether every character is ASCII.
pub open spec fn all_ascii(s: Seq<char>) -> bool {
    forall|i: int| 0 <= i < s.len() ==> (#[trigger] s[i] as u32) < 128
}

/// The colour that a string of ASCII hex digits denotes. Six digits give one
/// byte per pair; three digits are doubled (`abc` is `aabbcc`).
pub open spec fn hex_digits_color(h: Seq<char>) -> Result<[u8; 3], HexColorFault> {
    if h.len() == 6 {
        match (hex_byte(h[0], h[1]), hex_byte(h[2], h[3]), hex_byte(h[4], h[5])) {
            (Some(r), Some(g), Some(b)) => Ok([r, g, b]),
            _ => Err(HexColorFault::NonHex),
        }
    } else if h.len() == 3 {
        match (hex_byte(h[0], h[0]), hex_byte(h[1], h[1]), hex_byte(h[2], h[2])) {
            (Some(r), Some(g), Some(b)) => Ok([r, g, b]),
            _ => Err(HexColorFault::NonHex),
        }
    } else {
        Err(HexColorFault::WrongLength)
    }
}

/// The colour that a hex colour text denotes, or why it is rejected.
pub open spec fn hex_color_spec(s: Seq<char>) -> Result<[u8; 3], HexColorFault> {
    let h = hex_digits(s);
    if !all_ascii(h) {
        Err(HexColorFault::NonAscii)
    } else {
        hex_digits_color(h)
    }
}

/// The message for a rejected hex colour text `s`.
pub open spec fn hex_fault_message(s: Seq<char>, fault: HexColorFault) -> Seq<char> {
    "Invalid hex color '"@ + s + match fault {
        HexColorFault::NonAscii => "': non-ascii characters"@,
        HexColorFault::WrongLength => "': expected 3 or 6 hex digits"@,
        HexColorFault::NonHex => "': non-hex characters"@,
    }
}

fn hex_digit(c: char) -> (d: Option<u8>)
    ensures
        d == hex_digit_value(c),
{
    if '0' <= c && c <= '9' {
        Some(((c as u32) - ('0' as u32)) as u8)
    } else if 'a' <= c && c <= 'f' {
        Some(((c as u32) - ('a' as u32) + 10) as u8)
    } else if 'A' <= c && c <= 'F' {
        Some(((c as u32) - ('A' as u32) + 10) as u8)
    } else {
        None
    }
}

fn parse_hex_byte(a: char, b: char) -> (v: Option<u8>)
    ensures
        v == hex_byte(a, b),
{
    match (hex_digit(a), hex_digit(b)) {
        (Some(x), Some(y)) => Some(16 * x + y),
        _ => None,
    }
}

fn fault_message(s: &str, tail: &str) -> (m: String)
    ensures
        m@ == "Invalid hex color '"@ + s@ + tail@,
{
    let mut m = String::from_str("Invalid hex color '");
    m.append(s);
    m.append(tail);
    m
}

/// Bounds of the digits of a hex colour inside its characters.
fn hex_digit_bounds(v: &Vec<char>) -> (r: (usize, usize))
    ensures
        r.0 <= r.1 <= v@.len(),
        v@.subrange(r.0 as int, r.1 as int) == hex_digits(v@),
{
    let (lo, hi) = trim_bounds(v, 0, v.len());
    assert(v@.subrange(0, v@.len() as int) == v@);
    let mut a = lo;
    while a < hi && v[a] == '#'
        invariant
            lo <= a <= hi <= v@.len(),
            strip_hashes(v@.subrange(lo as int, hi as int)) == strip_hashes(v@.subrange(a as int, hi as int)),
        decreases hi - a,
    {
        assert(v@.subrange(a as int, hi as int).drop_first() == v@.subrange(a + 1, hi as int));
        a = a + 1;
    }
    (a, hi)
}

/// Whether `v[a..b]` is all ASCII.
fn ascii_range(v: &Vec<char>, a: usize, b: usize) -> (ok: bool)
    requires
        a <= b <= v@.len(),
    ensures
        ok == all_ascii(v@.subrange(a as int, b as int)),
{
    let ghost h = v@.subrange(a as int, b as int);
    let mut k = a;
    while k < b
        invariant
            a <= k <= b <= v@.len(),
            h == v@.subrange(a as int, b as int),
            forall|i: int| a <= i < k ==> (v@[i] as u32) < 128,
        decreases b - k,
    {
        if (v[k] as u32) >= 128 {
            assert(h[k - a] == v@[k as int]);
            return false;
        }
        k = k + 1;
    }
    assert forall|i: int| 0 <= i < h.len() implies (#[trigger] h[i] as u32) < 128 by {
        assert(h[i] == v@[a + i]);
    }
    true
}

/// The colour of the digits `v[a..b]`.
fn digits_color(v: &Vec<char>, a: usize, b: usize) -> (res: Result<[u8; 3], HexColorFault>)
    requires
        a <= b <= v@.len(),
    ensures
        res == hex_digits_color(v@.subrange(a as int, b as int)),
{
    let ghost h = v@.subrange(a as int, b as int);
    let n = b - a;
    let parsed = if n == 6 {
        assert(h[0] == v@[a as int] && h[1] == v@[a + 1] && h[2] == v@[a + 2]);
        assert(h[3] == v@[a + 3] && h[4] == v@[a + 4] && h[5] == v@[a + 5]);
        (parse_hex_byte(v[a], v[a + 1]), parse_hex_byte(v[a + 2], v[a + 3]), parse_hex_byte(v[a + 4], v[a + 5]))
    } else if n == 3 {
        assert(h[0] == v@[a as int] && h[1] == v@[a + 1] && h[2] == v@[a + 2]);
        (parse_hex_byte(v[a], v[a]), parse_hex_byte(v[a + 1], v[a + 1]), parse_hex_byte(v[a + 2], v[a + 2]))
    } else {
        return Err(HexColorFault::WrongLength);
    };
    match parsed {
        (Some(r), Some(g), Some(b)) => Ok([r, g, b]),
        _ => Err(HexColorFault::NonHex),
    }
}

/// Parse a single hex colour. The leading `#` is optional and both 3-digit
/// (`#abc` -> `#aabbcc`) and 6-digit forms are accepted.
pub fn parse_hex_color(s: &str) -> (res: Result<[u8; 3], PixelSnapperError>)
    ensures
        match hex_color_spec(s@) {
            Ok(c) => res == Ok::<[u8; 3], PixelSnapperError>(c),
            Err(fault) => res matches Err(PixelSnapperError::InvalidInput(m)) && m@ == hex_fault_message(s@, fault),
        },
{
    let v = chars_of(s);
    let (a, b) = hex_digit_bounds(&v);
    if !ascii_range(&v, a, b) {
        return Err(PixelSnapperError::InvalidInput(fault_message(s, "': non-ascii characters")));
    }
    match digits_color(&v, a, b) {
        Ok(c) => Ok(c),
        Err(HexColorFault::WrongLength) => Err(
            PixelSnapperError::InvalidInput(fault_message(s, "': expected 3 or 6 hex digits")),
        ),
        Err(_) => Err(PixelSnapperError::InvalidInput(fault_message(s, "': non-hex characters"))),
    }
}

/// A hex colour with three digits denotes the same colour as the six-digit
/// form with every digit doubled.
pub proof fn law_three_digit_hex_expands(d0: char, d1: char, d2: char)
    requires
        hex_digit_value(d0) is Some,
        hex_digit_value(d1) is Some,
        hex_digit_value(d2) is Some,
    ensures
        hex_color_spec(seq![d0, d1, d2]) == hex_color_spec(seq![d0, d0, d1, d1, d2, d2]),
        hex_color_spec(seq![d0, d1, d2]) is Ok,
{
    let short = seq![d0, d1, d2];
    let long = seq![d0, d0, d1, d1, d2, d2];
    lemma_hex_digits_plain(short);
    lemma_hex_digits_plain(long);
    assert(hex_byte(d0, d0) is Some);
}

/// The leading `#` is optional: a colour text means the same with or without
/// one `#` in front, when it does not start with white space.
pub proof fn law_leading_hash_optional(s: Seq<char>)
    requires
        s.len() > 0 ==> !is_white_space(s[0]),
    ensures
        hex_color_spec(seq!['#'] + s) == hex_color_spec(s),
{
    let t = seq!['#'] + s;
    assert(t[0] == '#');
    assert(trim_start(t) == t);
    lemma_trim_start_fixed(s);
    lemma_trim_end_prepend('#', s);
    let e = trim_end(s);
    assert((seq!['#'] + e).drop_first() == e);
    assert(strip_hashes(seq!['#'] + e) == strip_hashes(e));
}

proof fn lemma_trim_start_fixed(s: Seq<char>)
    requires
        s.len() > 0 ==> !is_white_space(s[0]),
    ensures
        trim_start(s) == s,
{
}

proof fn lemma_trim_end_prepend(c: char, s: Seq<char>)
    requires
        !is_white_space(c),
    ensures
        trim_end(seq![c] + s) == seq![c] + trim_end(s),
    decreases s.len(),
{
    let t = seq![c] + s;
    if s.len() == 0 {
        assert(t == seq![c]);
        assert(trim_end(t.drop_last()) == t.drop_last());
        assert(s == Seq::<char>::empty());
        assert(seq![c] + Seq::<char>::empty() == seq![c]);
    } else {
        assert(t.last() == s.last());
        if is_white_space(s.last()) {
            assert(t.drop_last() == seq![c] + s.drop_last());
            lemma_trim_end_prepend(c, s.drop_last());
        }
    }
}

/// The hexadecimal digit for `n` (`0 <= n < 16`), in upper or lower case.
pub open spec fn hex_char(n: int, upper: bool) -> char {
    if n < 10 {
        (48 + n) as char
    } else if upper {
        (55 + n) as char
    } else {
        (87 + n) as char
    }
}

/// The two hexadecimal digits of a byte, as `{:02x}` (or `{:02X}`) writes them.
pub open spec fn hex_pair(b: u8, upper: bool) -> Seq<char> {
    seq![hex_char((b / 16) as int, upper), hex_char((b % 16) as int, upper)]
}

/// Whether every character is white space.
pub open spec fn all_white_space(s: Seq<char>) -> bool {
    forall|i: int| 0 <= i < s.len() ==> is_white_space(#[trigger] s[i])
}

/// A colour written as six hexadecimal digits (either case), with or
/// without a leading `#` and with any surrounding white space, reads back as
/// that colour.
pub proof fn law_hex_round_trip(r: u8, g: u8, b: u8, upper: bool, hash: bool, lead: Seq<char>, trail: Seq<char>)
    requires
        all_white_space(lead),
        all_white_space(trail),
    ensures
        hex_color_spec(
            lead + (if hash {
                seq!['#']
            } else {
                Seq::<char>::empty()
            }) + hex_pair(r, upper) + hex_pair(g, upper) + hex_pair(b, upper) + trail,
        ) == Ok::<[u8; 3], HexColorFault>([r, g, b]),
{
    let d = hex_pair(r, upper) + hex_pair(g, upper) + hex_pair(b, upper);
    let h = if hash {
        seq!['#']
    } else {
        Seq::<char>::empty()
    };
    let core = h + d;
    lemma_hex_char((r / 16) as int, upper);
    lemma_hex_char((r % 16) as int, upper);
    lemma_hex_char((g / 16) as int, upper);
    lemma_hex_char((g % 16) as int, upper);
    lemma_hex_char((b / 16) as int, upper);
    lemma_hex_char((b % 16) as int, upper);
    assert(d.len() == 6);
    assert(d[0] == hex_char((r / 16) as int, upper) && d[1] == hex_char((r % 16) as int, upper));
    assert(d[2] == hex_char((g / 16) as int, upper) && d[3] == hex_char((g % 16) as int, upper));
    assert(d[4] == hex_char((b / 16) as int, upper) && d[5] == hex_char((b % 16) as int, upper));
    assert(core.len() > 0 && !is_white_space(core[0]));
    assert(core.last() == d[5]);
    assert(!is_white_space(core.last()));
    lemma_trim_around(lead, core, trail);
    let x = lead + h + hex_pair(r, upper) + hex_pair(g, upper) + hex_pair(b, upper) + trail;
    assert(x =~= lead + core + trail);
    assert(trimmed(lead + core + trail) == core);
    if hash {
        assert(core.drop_first() == d);
        assert(strip_hashes(core) == strip_hashes(d));
    }
    assert(strip_hashes(d) == d);
    assert(hex_digits(lead + core + trail) == d);
    assert(all_ascii(d)) by {
        assert forall|i: int| 0 <= i < d.len() implies (#[trigger] d[i] as u32) < 128 by {
            assert(hex_digit_value(d[i]) is Some);
        }
    }
    assert(16 * ((r / 16) as int) + (r % 16) as int == r);
    assert(hex_byte(d[0], d[1]) == Some(r));
    assert(16 * ((g / 16) as int) + (g % 16) as int == g);
    assert(hex_byte(d[2], d[3]) == Some(g));
    assert(16 * ((b / 16) as int) + (b % 16) as int == b);
    assert(hex_byte(d[4], d[5]) == Some(b));
    assert(hex_digits(x) == d);
}

proof fn lemma_hex_char(n: int, upper: bool)
    requires
        0 <= n < 16,
    ensures
        hex_digit_value(hex_char(n, upper)) == Some(n as u8),
        !is_white_space(hex_char(n, upper)),
        hex_char(n, upper) != '#',
{
}

proof fn lemma_trim_start_skips(lead: Seq<char>, t: Seq<char>)
    requires
        all_white_space(lead),
    ensures
        trim_start(lead + t) == trim_start(t),
    decreases lead.len(),
{
    if lead.len() > 0 {
        assert((lead + t)[0] == lead[0]);
        assert((lead + t).drop_first() == lead.drop_first() + t);
        lemma_trim_start_skips(lead.drop_first(), t);
    } else {
        assert(lead + t == t);
    }
}

proof fn lemma_trim_end_skips(t: Seq<char>, trail: Seq<char>)
    requires
        all_white_space(trail),
    ensures
        trim_end(t + trail) == trim_end(t),
    decreases trail.len(),
{
    if trail.len() > 0 {
        assert((t + trail).last() == trail.last());
        assert((t + trail).drop_last() == t + trail.drop_last());
        lemma_trim_end_skips(t, trail.drop_last());
    } else {
        assert(t + trail == t);
    }
}

proof fn lemma_trim_around(lead: Seq<char>, core: Seq<char>, trail: Seq<char>)
    requires
        all_white_space(lead),
        all_white_space(trail),
        core.len() > 0,
        !is_white_space(core[0]),
        !is_white_space(core.last()),
    ensures
        trimmed(lead + core + trail) == core,
{
    assert(lead + core + trail == lead + (core + trail));
    lemma_trim_start_skips(lead, core + trail);
    assert((core + trail)[0] == core[0]);
    assert(trim_start(core + trail) == core + trail);
    lemma_trim_end_skips(core, trail);
    assert(trim_end(core) == core);
}

/// Text of hexadecimal digits alone is its own digit string.
proof fn lemma_hex_digits_plain(s: Seq<char>)
    requires
        forall|i: int| 0 <= i < s.len() ==> #[trigger] hex_digit_value(s[i]) is Some,
    ensures
        hex_digits(s) == s,
        all_ascii(s),
{
    reveal_with_fuel(crate::text::trim_start, 2);
    reveal_with_fuel(crate::text::trim_end, 2);
    if s.len() > 0 {
        assert(hex_digit_value(s[0]) is Some);
        assert(hex_digit_value(s.last()) is Some);
    }
    assert forall|i: int| 0 <= i < s.len() implies (#[trigger] s[i] as u32) < 128 by {
        assert(hex_digit_value(s[i]) is Some);
    }
}

/// Tokens of a palette listing: the pieces between separators, trimmed, without
/// empty ones and, when `comments` is set, without those starting with `;`.
pub open spec fn kept_tokens(pieces: Seq<Seq<char>>, comments: bool) -> Seq<Seq<char>>
    decreases pieces.len(),
{
    if pieces.len() == 0 {
        Seq::empty()
    } else {
        let kept = kept_tokens(pieces.drop_last(), comments);
        let t = trimmed(pieces.last());
        if t.len() > 0 && !(comments && t[0] == ';') {
            kept.push(t)
        } else {
            kept
        }
    }
}

/// The colours of a list of tokens, or the first token that is not a colour
/// together with the fault.
pub open spec fn parse_tokens(tokens: Seq<Seq<char>>) -> Result<Seq<[u8; 3]>, (Seq<char>, HexColorFault)>
    decreases tokens.len(),
{
    if tokens.len() == 0 {
        Ok(Seq::empty())
    } else {
        match parse_tokens(tokens.drop_last()) {
            Err(e) => Err(e),
            Ok(colors) => match hex_color_spec(tokens.last()) {
                Ok(c) => Ok(colors.push(c)),
                Err(fault) => Err((tokens.last(), fault)),
            },
        }
    }
}

/// What parsing a palette listing gives: its colours, or the message of the
/// first rejected token.
pub open spec fn palette_listing(s: Seq<char>, sep: char, comments: bool) -> Result<Seq<[u8; 3]>, Seq<char>> {
    match parse_tokens(kept_tokens(split_at_char(s, sep), comments)) {
        Ok(colors) => Ok(colors),
        Err((t, fault)) => Err(hex_fault_message(t, fault)),
    }
}

proof fn lemma_parse_tokens_error_sticks(tokens: Seq<Seq<char>>, n: int)
    requires
        0 <= n <= tokens.len(),
        parse_tokens(tokens.take(n)) is Err,
    ensures
        parse_tokens(tokens) == parse_tokens(tokens.take(n)),
    decreases tokens.len() - n,
{
    if n < tokens.len() {
        assert(tokens.take(n + 1).drop_last() == tokens.take(n));
        lemma_parse_tokens_error_sticks(tokens, n + 1);
    } else {
        assert(tokens.take(n) == tokens);
    }
}

proof fn lemma_kept_prefix_error(pieces: Seq<Seq<char>>, n: int, comments: bool)
    requires
        0 <= n <= pieces.len(),
        parse_tokens(kept_tokens(pieces.take(n), comments)) is Err,
    ensures
        parse_tokens(kept_tokens(pieces, comments)) == parse_tokens(kept_tokens(pieces.take(n), comments)),
    decreases pieces.len() - n,
{
    if n < pieces.len() {
        let k = kept_tokens(pieces.take(n), comments);
        assert(pieces.take(n + 1).drop_last() == pieces.take(n));
        let k1 = kept_tokens(pieces.take(n + 1), comments);
        if k1 != k {
            assert(k1.drop_last() == k);
        }
        lemma_kept_prefix_error(pieces, n + 1, comments);
    } else {
        assert(pieces.take(n) == pieces);
    }
}

/// A separator at the end of a palette listing changes nothing: the empty
/// piece after it is skipped.
pub proof fn law_trailing_separator_ignored(s: Seq<char>, sep: char, comments: bool)
    ensures
        palette_listing(s.push(sep), sep, comments) == palette_listing(s, sep, comments),
{
    let pieces = split_at_char(s, sep);
    let longer = s.push(sep);
    assert(longer.drop_last() == s);
    assert(split_at_char(longer, sep) == pieces.push(Seq::<char>::empty()));
    assert(pieces.push(Seq::<char>::empty()).drop_last() == pieces);
    assert(trimmed(Seq::<char>::empty()) == Seq::<char>::empty());
    assert(kept_tokens(pieces.push(Seq::<char>::empty()), comments) == kept_tokens(pieces, comments));
}

/// Parses a palette listing: pieces between `sep`, trimmed, skipping empty
/// pieces (and `;` comment pieces when `comments` is set).
fn parse_listing(s: &str, sep: char, comments: bool) -> (res: Result<Vec<[u8; 3]>, PixelSnapperError>)
    ensures
        match palette_listing(s@, sep, comments) {
            Ok(colors) => res matches Ok(v) && v@ == colors,
            Err(m) => res matches Err(PixelSnapperError::InvalidInput(e)) && e@ == m,
        },
{
    let v = chars_of(s);
    let bounds = split_bounds(&v, sep);
    let ghost pieces = split_at_char(s@, sep);
    let mut colors: Vec<[u8; 3]> = Vec::new();
    let mut i: usize = 0;
    while i < bounds.len()
        invariant
            v@ == s@,
            pieces == split_at_char(s@, sep),
            bounds@.len() == pieces.len(),
            forall|k: int| 0 <= k < bounds@.len() ==> bounds@[k].0 <= #[trigger] bounds@[k].1 <= v@.len(),
            forall|k: int| 0 <= k < bounds@.len() ==> v@.subrange(#[trigger] bounds@[k].0 as int, bounds@[k].1 as int) == pieces[k],
            i <= bounds@.len(),
            parse_tokens(kept_tokens(pieces.take(i as int), comments)) == Ok::<Seq<[u8; 3]>, (Seq<char>, HexColorFault)>(colors@),
        decreases bounds@.len() - i,
    {
        let (lo, hi) = bounds[i];
        let (a, b) = trim_bounds(&v, lo, hi);
        assert(pieces.take(i + 1).drop_last() == pieces.take(i as int));
        assert(pieces.take(i + 1).last() == pieces[i as int]);
        let ghost t = v@.subrange(a as int, b as int);
        let ghost kept = kept_tokens(pieces.take(i as int), comments);
        assert(t == trimmed(pieces[i as int]));
        if b > a && !(comments && v[a] == ';') {
            assert(t[0] == v@[a as int]);
            assert(kept_tokens(pieces.take(i + 1), comments) == kept.push(t));
            assert(kept.push(t).drop_last() == kept);
            assert(kept.push(t).last() == t);
            let token = s.substring_char(a, b);
            match parse_hex_color(token) {
                Ok(c) => {
                    colors.push(c);
                },
                Err(e) => {
                    proof {
                        lemma_kept_prefix_error(pieces, i + 1, comments);
                    }
                    return Err(e);
                },
            }
        } else {
            assert(b > a ==> t[0] == v@[a as int]);
            assert(kept_tokens(pieces.take(i + 1), comments) == kept);
        }
        i = i + 1;
    }
    assert(pieces.take(pieces.len() as int) == pieces);
    Ok(colors)
}

/// Parse a comma-separated list of hex colours (e.g. `"#1a1a2e,16213e"`).
/// Empty entries are skipped.
pub fn parse_palette_string(s: &str) -> (res: Result<Vec<[u8; 3]>, PixelSnapperError>)
    ensures
        match palette_listing(s@, ',', false) {
            Ok(colors) => res matches Ok(v) && v@ == colors,
            Err(m) => res matches Err(PixelSnapperError::InvalidInput(e)) && e@ == m,
        },
{
    parse_listing(s, ',', false)
}

/// Parse the text of a Lospec `.hex` palette file: one hex colour per line;
/// blank lines and lines starting with `;` are skipped. Lines are split at
/// `\n` and trimmed, which also removes the `\r` of `\r\n` endings.
pub fn parse_palette_file_contents(content: &str) -> (res: Result<Vec<[u8; 3]>, PixelSnapperError>)
    ensures
        match palette_listing(content@, '\n', true) {
            Ok(colors) => res matches Ok(v) && v@ == colors,
            Err(m) => res matches Err(PixelSnapperError::InvalidInput(e)) && e@ == m,
        },
{
    parse_listing(content, '\n', true)
}

/// Largest number of colours a palette may hold.
pub const MAX_PALETTE: usize = 256;

/// The kinds of palette file a `--palette` value can name.
#[derive(Debug, Clone, Copy, PartialEq, Eq, Structural)]
pub enum PaletteFileKind {
    /// Lospec `.hex`: one hex colour per line.
    Hex,
    /// GIMP `.gpl`.
    Gpl,
    /// JASC `.pal`.
    Pal,
    /// An image (`.png`, `.jpg`, `.jpeg`) whose colours form the palette.
    Image,
}

/// Which palette file a `--palette` value names, judged by its extension in
/// any ASCII case (`hex`, `gpl`, `pal`, `png`, `jpg`, `jpeg`); an existing
/// file with another extension reads as `.hex`; `None` means the value is an
/// inline list of colours.
pub open spec fn palette_file_kind_of(path_is_file: bool, extension: Option<Seq<char>>) -> Option<PaletteFileKind> {
    let is = |name: Seq<char>| (extension matches Some(e) && eq_ignore_ascii_case(e, name));
    if is("hex"@) {
        Some(PaletteFileKind::Hex)
    } else if is("gpl"@) {
        Some(PaletteFileKind::Gpl)
    } else if is("pal"@) {
        Some(PaletteFileKind::Pal)
    } else if is("png"@) || is("jpg"@) || is("jpeg"@) {
        Some(PaletteFileKind::Image)
    } else if path_is_file {
        Some(PaletteFileKind::Hex)
    } else {
        None
    }
}

/// Which palette file a `--palette` value names (see `palette_file_kind_of`).
pub fn palette_file_kind(path_is_file: bool, extension: Option<&str>) -> (kind: Option<PaletteFileKind>)
    ensures
        kind == palette_file_kind_of(path_is_file, match extension {
            Some(e) => Some(e@),
            None => None,
        }),
{
    if let Some(e) = extension {
        if eq_ignore_case(e, "hex") {
            return Some(PaletteFileKind::Hex);
        }
        if eq_ignore_case(e, "gpl") {
            return Some(PaletteFileKind::Gpl);
        }
        if eq_ignore_case(e, "pal") {
            return Some(PaletteFileKind::Pal);
        }
        if eq_ignore_case(e, "png") || eq_ignore_case(e, "jpg") || eq_ignore_case(e, "jpeg") {
            return Some(PaletteFileKind::Image);
        }
    }
    if path_is_file {
        Some(PaletteFileKind::Hex)
    } else {
        None
    }
}

/// The contents of a palette file, read by the caller: the text of a `.hex`,
/// `.gpl` or `.pal` file, or the colours taken from an image.
pub enum PaletteFile<'a> {
    Hex(&'a str),
    Gpl(&'a str),
    Pal(&'a str),
    Image(Vec<[u8; 3]>),
}

/// What reading a palette file gives: its colours or an error message.
pub open spec fn file_listing(file: PaletteFile) -> Result<Seq<[u8; 3]>, Seq<char>> {
    match file {
        PaletteFile::Hex(c) => palette_listing(c@, '\n', true),
        PaletteFile::Gpl(c) => gpl_listing(c@),
        PaletteFile::Pal(c) => pal_listing(c@),
        PaletteFile::Image(colors) => Ok(colors@),
    }
}

/// What resolving a palette gives for a listing that parsed to `colors`:
/// an error message when there are none or more than `MAX_PALETTE`.
pub open spec fn palette_size_error(colors: Seq<[u8; 3]>) -> Option<Seq<char>> {
    if colors.len() == 0 {
        Some("Palette is empty (no valid colors)"@)
    } else if colors.len() > MAX_PALETTE {
        Some("Palette too large: "@ + decimal(colors.len()) + " colors (max 256)"@)
    } else {
        None
    }
}

/// Resolve a `--palette` argument into colours plus a human-readable source
/// label. `file` holds what the named palette file contains when the value
/// names one (see `palette_file_kind`); otherwise the value itself is parsed
/// as a comma-separated list of hex colours. The palette must hold between 1
/// and 256 colours.
pub fn resolve_palette(value: &str, file: Option<PaletteFile>) -> (res: Result<(Vec<[u8; 3]>, String), PixelSnapperError>)
    ensures
        ({
            let listing = match file {
                Some(f) => file_listing(f),
                None => palette_listing(value@, ',', false),
            };
            match listing {
                Err(m) => res matches Err(PixelSnapperError::InvalidInput(e)) && e@ == m,
                Ok(colors) => match palette_size_error(colors) {
                    Some(m) => res matches Err(PixelSnapperError::InvalidInput(e)) && e@ == m,
                    None => res matches Ok((v, source)) && v@ == colors && source@ == (if file is Some {
                        value@
                    } else {
                        "inline"@
                    }),
                },
            }
        }),
{
    let from_file = file.is_some();
    let palette = match file {
        Some(PaletteFile::Hex(c)) => parse_palette_file_contents(c)?,
        Some(PaletteFile::Gpl(c)) => parse_gpl_palette(c)?,
        Some(PaletteFile::Pal(c)) => parse_pal_palette(c)?,
        Some(PaletteFile::Image(colors)) => colors,
        None => parse_palette_string(value)?,
    };
    if palette.len() == 0 {
        return Err(PixelSnapperError::InvalidInput(String::from_str("Palette is empty (no valid colors)")));
    }
    if palette.len() > MAX_PALETTE {
        let mut m = String::from_str("Palette too large: ");
        push_decimal(&mut m, palette.len());
        m.append(" colors (max 256)");
        return Err(PixelSnapperError::InvalidInput(m));
    }
    let source = if from_file {
        String::from_str(value)
    } else {
        String::from_str("inline")
    };
    Ok((palette, source))
}

/// The colours of a flat RGB byte list (`[r, g, b, r, g, b, ...]`).
pub open spec fn rgb_triples(flat: Seq<u8>) -> Seq<[u8; 3]> {
    Seq::new(flat.len() / 3, |i: int| [flat[3 * i], flat[3 * i + 1], flat[3 * i + 2]])
}

/// A flat RGB list is read three bytes per colour, in order: channel `k` of
/// colour `i` is byte `3 * i + k`.
pub proof fn law_flat_rgb_channel_order(flat: Seq<u8>, i: int, k: int)
    requires
        0 <= i < flat.len() / 3,
        0 <= k < 3,
    ensures
        rgb_triples(flat).len() == flat.len() / 3,
        rgb_triples(flat)[i][k] == flat[3 * i + k],
{
}

/// Reads a palette handed over as flat RGB bytes. The list must be a non-empty
/// multiple of three bytes long and hold at most 256 colours.
pub fn palette_from_flat_rgb(flat: &[u8]) -> (res: Result<Vec<[u8; 3]>, String>)
    ensures
        (flat@.len() == 0 || flat@.len() % 3 != 0) ==> (res matches Err(m) && m@
            == "palette_rgb must be a non-empty multiple of 3 (flat RGB)"@),
        (flat@.len() > 0 && flat@.len() % 3 == 0 && flat@.len() / 3 > 256) ==> (res matches Err(m) && m@
            == "Palette too large (max 256 colors)"@),
        (flat@.len() > 0 && flat@.len() % 3 == 0 && flat@.len() / 3 <= 256) ==> (res matches Ok(p) && p@
            == rgb_triples(flat@)),
{
    if flat.len() == 0 || flat.len() % 3 != 0 {
        return Err(String::from_str("palette_rgb must be a non-empty multiple of 3 (flat RGB)"));
    }
    if flat.len() / 3 > 256 {
        return Err(String::from_str("Palette too large (max 256 colors)"));
    }
    let n = flat.len() / 3;
    let mut palette: Vec<[u8; 3]> = Vec::with_capacity(n);
    let mut i: usize = 0;
    while i < n
        invariant
            n == flat@.len() / 3,
            n <= 256,
            i <= n,
            palette@.len() == i,
            forall|k: int| 0 <= k < i ==> #[trigger] palette@[k] == rgb_triples(flat@)[k],
        decreases n - i,
    {
        palette.push([flat[3 * i], flat[3 * i + 1], flat[3 * i + 2]]);
        i = i + 1;
    }
    assert(palette@ == rgb_triples(flat@));
    Ok(palette)
}

/// One-line summary of the active palette for command-line output, or `None`
/// when no palette is set.
pub fn palette_summary(palette_len: Option<usize>, source: Option<&str>, k_colors_explicit: bool, k_colors: usize) -> (summary: Option<String>)
    ensures
        palette_len is None ==> summary is None,
        palette_len matches Some(n) ==> (summary matches Some(m) && m@ == "Palette: "@ + decimal(n as nat)
            + " colors (from "@ + (match source {
            Some(src) => src@,
            None => "inline"@,
        }) + (if k_colors_explicit {
            "), limited to "@ + decimal(k_colors as nat) + " via k-means"@
        } else {
            ") \u{2014} k_colors ignored"@
        })),
{
    let n = match palette_len {
        Some(n) => n,
        None => return None,
    };
    let mut m = String::from_str("Palette: ");
    push_decimal(&mut m, n);
    m.append(" colors (from ");
    match source {
        Some(src) => m.append(src),
        None => m.append("inline"),
    }
    if k_colors_explicit {
        m.append("), limited to ");
        push_decimal(&mut m, k_colors);
        m.append(" via k-means");
    } else {
        m.append(") \u{2014} k_colors ignored");
    }
    Some(m)
}

} // verus!
