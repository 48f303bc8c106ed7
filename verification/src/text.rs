use vstd::prelude::*;

verus! {

broadcast use vstd::string::group_string_axioms;

/// The characters of `s`, in order.
pub fn chars_of(s: &str) -> (v: Vec<char>)
    ensures
        v@ == s@,
{
    let mut v: Vec<char> = Vec::new();
    let mut it = s.chars();
    loop
        invariant
            vstd::std_specs::iter::IteratorSpec::obeys_prophetic_iter_laws(&it),
            v@ + vstd::std_specs::iter::IteratorSpec::remaining(&it) == s@,
        ensures
            v@ == s@,
        decreases s@.len() - v@.len(),
    {
        match it.next() {
            Some(c) => {
                v.push(c);
            },
            None => {
                assert(v@ + Seq::<char>::empty() == v@);
                break ;
            },
        }
    }
    v
}

/// Unicode `White_Space`, the property behind `char::is_whitespace`.
pub open spec fn is_white_space(c: char) -> bool {
    ||| '\t' <= c <= '\r'
    ||| c == ' '
    ||| c == '\u{85}'
    ||| c == '\u{a0}'
    ||| c == '\u{1680}'
    ||| '\u{2000}' <= c <= '\u{200a}'
    ||| c == '\u{2028}'
    ||| c == '\u{2029}'
    ||| c == '\u{202f}'
    ||| c == '\u{205f}'
    ||| c == '\u{3000}'
}

/// `s` without its leading white space.
pub open spec fn trim_start(s: Seq<char>) -> Seq<char>
    decreases s.len(),
{
    if s.len() > 0 && is_white_space(s[0]) {
        trim_start(s.drop_first())
    } else {
        s
    }
}

/// `s` without its trailing white space.
pub open spec fn trim_end(s: Seq<char>) -> Seq<char>
    decreases s.len(),
{
    if s.len() > 0 && is_white_space(s.last()) {
        trim_end(s.drop_last())
    } else {
        s
    }
}

/// `s` without leading and trailing white space, as `str::trim` gives it.
pub open spec fn trimmed(s: Seq<char>) -> Seq<char> {
    trim_end(trim_start(s))
}

/// Whether `c` is white space.
pub fn is_white_space_char(c: char) -> (ws: bool)
    ensures
        ws == is_white_space(c),
{
    ('\t' <= c && c <= '\r') || c == ' ' || c == '\u{85}' || c == '\u{a0}' || c == '\u{1680}'
        || ('\u{2000}' <= c && c <= '\u{200a}') || c == '\u{2028}' || c == '\u{2029}' || c
        == '\u{202f}' || c == '\u{205f}' || c == '\u{3000}'
}

/// Bounds of the trimmed part of `v[lo..hi]`.
pub fn trim_bounds(v: &Vec<char>, lo: usize, hi: usize) -> (r: (usize, usize))
    requires
        lo <= hi <= v@.len(),
    ensures
        lo <= r.0 <= r.1 <= hi,
        v@.subrange(r.0 as int, r.1 as int) == trimmed(v@.subrange(lo as int, hi as int)),
{
    let mut a = lo;
    while a < hi && is_white_space_char(v[a])
        invariant
            lo <= a <= hi <= v@.len(),
            trim_start(v@.subrange(lo as int, hi as int)) == trim_start(v@.subrange(a as int, hi as int)),
        decreases hi - a,
    {
        assert(v@.subrange(a as int, hi as int).drop_first() == v@.subrange(a + 1, hi as int));
        a = a + 1;
    }
    let mut b = hi;
    while b > a && is_white_space_char(v[b - 1])
        invariant
            lo <= a <= b <= hi <= v@.len(),
            trim_end(v@.subrange(a as int, hi as int)) == trim_end(v@.subrange(a as int, b as int)),
        decreases b - a,
    {
        assert(v@.subrange(a as int, b as int).drop_last() == v@.subrange(a as int, b - 1));
        b = b - 1;
    }
    (a, b)
}

/// The pieces of `s` between occurrences of `sep`, as `str::split` yields them.
pub open spec fn split_at_char(s: Seq<char>, sep: char) -> Seq<Seq<char>>
    decreases s.len(),
{
    if s.len() == 0 {
        seq![Seq::<char>::empty()]
    } else {
        let rest = split_at_char(s.drop_last(), sep);
        if s.last() == sep {
            rest.push(Seq::<char>::empty())
        } else {
            rest.update(rest.len() - 1, rest.last().push(s.last()))
        }
    }
}

proof fn lemma_split_nonempty(s: Seq<char>, sep: char)
    ensures
        split_at_char(s, sep).len() >= 1,
    decreases s.len(),
{
    if s.len() > 0 {
        lemma_split_nonempty(s.drop_last(), sep);
    }
}

/// Bounds of the pieces of `v` between occurrences of `sep`.
pub fn split_bounds(v: &Vec<char>, sep: char) -> (r: Vec<(usize, usize)>)
    ensures
        r@.len() == split_at_char(v@, sep).len(),
        forall|i: int| 0 <= i < r@.len() ==> r@[i].0 <= #[trigger] r@[i].1 <= v@.len(),
        forall|i: int| 0 <= i < r@.len() ==> v@.subrange(#[trigger] r@[i].0 as int, r@[i].1 as int) == split_at_char(v@, sep)[i],
{
    let mut r: Vec<(usize, usize)> = Vec::new();
    let mut start: usize = 0;
    let mut i: usize = 0;
    while i < v.len()
        invariant
            start <= i <= v@.len(),
            r@.len() + 1 == split_at_char(v@.take(i as int), sep).len(),
            forall|k: int| 0 <= k < r@.len() ==> r@[k].0 <= #[trigger] r@[k].1 <= i,
            forall|k: int| 0 <= k < r@.len() ==> v@.subrange(#[trigger] r@[k].0 as int, r@[k].1 as int) == split_at_char(v@.take(i as int), sep)[k],
            v@.subrange(start as int, i as int) == split_at_char(v@.take(i as int), sep).last(),
        decreases v@.len() - i,
    {
        let ghost prev = split_at_char(v@.take(i as int), sep);
        assert(v@.take(i + 1).drop_last() == v@.take(i as int));
        assert(v@.take(i + 1).last() == v@[i as int]);
        proof {
            lemma_split_nonempty(v@.take(i as int), sep);
        }
        if v[i] == sep {
            r.push((start, i));
            start = i + 1;
            assert(v@.subrange(start as int, i + 1) == Seq::<char>::empty());
        } else {
            assert(v@.subrange(start as int, i + 1) == v@.subrange(start as int, i as int).push(v@[i as int]));
        }
        i = i + 1;
    }
    r.push((start, v.len()));
    assert(v@.take(v@.len() as int) == v@);
    r
}

/// The decimal digit character for `d`.
pub open spec fn digit_char(d: int) -> char {
    (48 + d) as char
}

/// The decimal representation of `n`, as `Display` writes it.
pub open spec fn decimal(n: nat) -> Seq<char>
    decreases n,
{
    if n < 10 {
        seq![digit_char(n as int)]
    } else {
        decimal(n / 10).push(digit_char((n % 10) as int))
    }
}

fn digit_str(d: usize) -> (s: &'static str)
    requires
        d < 10,
    ensures
        s@ == seq![digit_char(d as int)],
{
    proof {
        reveal_strlit("0");
        reveal_strlit("1");
        reveal_strlit("2");
        reveal_strlit("3");
        reveal_strlit("4");
        reveal_strlit("5");
        reveal_strlit("6");
        reveal_strlit("7");
        reveal_strlit("8");
        reveal_strlit("9");
    }
    match d {
        0 => "0",
        1 => "1",
        2 => "2",
        3 => "3",
        4 => "4",
        5 => "5",
        6 => "6",
        7 => "7",
        8 => "8",
        _ => "9",
    }
}

/// Appends the decimal representation of `n` to `out`.
pub fn push_decimal(out: &mut String, n: usize)
    ensures
        final(out)@ == old(out)@ + decimal(n as nat),
    decreases n,
{
    if n < 10 {
        out.append(digit_str(n));
    } else {
        push_decimal(out, n / 10);
        out.append(digit_str(n % 10));
    }
}

/// Code point of the ASCII lower-case of `c` (`char::to_ascii_lowercase`).
pub open spec fn ascii_lower(c: char) -> u32 {
    if 'A' <= c <= 'Z' {
        (c as u32 + 32) as u32
    } else {
        c as u32
    }
}

/// `a` equals `b` up to ASCII case, as `str::eq_ignore_ascii_case` decides it.
pub open spec fn eq_ignore_ascii_case(a: Seq<char>, b: Seq<char>) -> bool {
    a.len() == b.len() && forall|i: int| 0 <= i < a.len() ==> ascii_lower(#[trigger] a[i]) == ascii_lower(b[i])
}

fn to_ascii_lower(c: char) -> (l: u32)
    ensures
        l == ascii_lower(c),
{
    if 'A' <= c && c <= 'Z' {
        (c as u32) + 32
    } else {
        c as u32
    }
}

/// Whether `a` equals `b` up to ASCII case.
pub fn eq_ignore_case(a: &str, b: &str) -> (eq: bool)
    ensures
        eq == eq_ignore_ascii_case(a@, b@),
{
    let va = chars_of(a);
    let vb = chars_of(b);
    if va.len() != vb.len() {
        return false;
    }
    let mut i: usize = 0;
    while i < va.len()
        invariant
            va@ == a@,
            vb@ == b@,
            va@.len() == vb@.len(),
            i <= va@.len(),
            forall|k: int| 0 <= k < i ==> ascii_lower(#[trigger] va@[k]) == ascii_lower(vb@[k]),
        decreases va@.len() - i,
    {
        if to_ascii_lower(va[i]) != to_ascii_lower(vb[i]) {
            return false;
        }
        i = i + 1;
    }
    true
}

/// Whether `a` and `b` hold the same characters.
pub fn str_eq(a: &str, b: &str) -> (eq: bool)
    ensures
        eq == (a@ == b@),
{
    let va = chars_of(a);
    let vb = chars_of(b);
    if va.len() != vb.len() {
        return false;
    }
    let mut i: usize = 0;
    while i < va.len()
        invariant
            va@ == a@,
            vb@ == b@,
            va@.len() == vb@.len(),
            i <= va@.len(),
            forall|k: int| 0 <= k < i ==> va@[k] == vb@[k],
        decreases va@.len() - i,
    {
        if va[i] != vb[i] {
            return false;
        }
        i = i + 1;
    }
    assert(va@ =~= vb@);
    true
}

/// Whether every character is a decimal digit.
pub open spec fn all_decimal(s: Seq<char>) -> bool {
    forall|i: int| 0 <= i < s.len() ==> '0' <= #[trigger] s[i] <= '9'
}

/// The number that a string of decimal digits denotes.
pub open spec fn digits_value(s: Seq<char>) -> nat
    decreases s.len(),
{
    if s.len() == 0 {
        0
    } else {
        digits_value(s.drop_last()) * 10 + (s.last() as int - '0' as int) as nat
    }
}

/// The number an unsigned integer text denotes, as `str::parse` reads it: an
/// optional `+` sign followed by at least one decimal digit.
pub open spec fn unsigned_value(s: Seq<char>) -> Option<nat> {
    let d = if s.len() > 0 && s[0] == '+' {
        s.drop_first()
    } else {
        s
    };
    if d.len() > 0 && all_decimal(d) {
        Some(digits_value(d))
    } else {
        None
    }
}

/// `str::parse::<u64>`: the value when it is an unsigned integer text that fits.
pub open spec fn u64_value(s: Seq<char>) -> Option<u64> {
    match unsigned_value(s) {
        Some(v) => if v <= u64::MAX {
            Some(v as u64)
        } else {
            None
        },
        None => None,
    }
}

pub proof fn lemma_digits_value_prefix(s: Seq<char>, j: int)
    requires
        0 <= j <= s.len(),
        all_decimal(s),
    ensures
        digits_value(s.take(j)) <= digits_value(s),
    decreases s.len() - j,
{
    if j < s.len() {
        lemma_digits_value_prefix(s, j + 1);
        assert(s.take(j + 1).drop_last() == s.take(j));
        assert('0' <= s[j] <= '9');
    } else {
        assert(s.take(j) == s);
    }
}

/// Parses an unsigned integer text into a `u64`.
pub fn parse_u64(s: &str) -> (res: Option<u64>)
    ensures
        res == u64_value(s@),
{
    let v = chars_of(s);
    let start: usize = if v.len() > 0 && v[0] == '+' {
        1
    } else {
        0
    };
    let ghost d = v@.subrange(start as int, v@.len() as int);
    assert(d == (if s@.len() > 0 && s@[0] == '+' {
        s@.drop_first()
    } else {
        s@
    }));
    if start == v.len() {
        return None;
    }
    let mut acc: u64 = 0;
    let mut j: usize = start;
    while j < v.len()
        invariant
            v@ == s@,
            start <= j <= v@.len(),
            d == v@.subrange(start as int, v@.len() as int),
            d == (if s@.len() > 0 && s@[0] == '+' {
                s@.drop_first()
            } else {
                s@
            }),
            d.len() > 0,
            all_decimal(d.take(j - start)),
            acc == digits_value(d.take(j - start)),
        decreases v@.len() - j,
    {
        let c = v[j];
        assert(d[j - start] == c);
        if !('0' <= c && c <= '9') {
            assert(!all_decimal(d));
            return None;
        }
        let digit = ((c as u32) - ('0' as u32)) as u64;
        assert(d.take(j + 1 - start).drop_last() == d.take(j - start));
        assert(d.take(j + 1 - start).last() == c);
        assert(all_decimal(d.take(j + 1 - start)));
        assert(digits_value(d.take(j + 1 - start)) == acc * 10 + digit);
        match acc.checked_mul(10) {
            Some(t) => match t.checked_add(digit) {
                Some(n) => {
                    acc = n;
                },
                None => {
                    proof {
                        if all_decimal(d) {
                            lemma_digits_value_prefix(d, j + 1 - start);
                        }
                    }
                    return None;
                },
            },
            None => {
                proof {
                    if all_decimal(d) {
                        lemma_digits_value_prefix(d, j + 1 - start);
                    }
                }
                return None;
            },
        }
        j = j + 1;
    }
    assert(d.take(v@.len() - start) == d);
    Some(acc)
}

/// Whether `c` is a decimal digit.
pub open spec fn is_digit(c: char) -> bool {
    '0' <= c <= '9'
}

/// The index after the run of decimal digits that starts at `i`.
pub open spec fn digits_end(s: Seq<char>, i: int) -> int
    decreases s.len() - i,
{
    if 0 <= i < s.len() && is_digit(s[i]) {
        digits_end(s, i + 1)
    } else {
        i
    }
}

/// The index after the run of white space that starts at `i`.
pub open spec fn white_space_end(s: Seq<char>, i: int) -> int
    decreases s.len() - i,
{
    if 0 <= i < s.len() && is_white_space(s[i]) {
        white_space_end(s, i + 1)
    } else {
        i
    }
}

/// The number from 0 to 255 written at `i` in decimal digits, ended by white
/// space or the end of `s`, with the index after it.
pub open spec fn byte_at(s: Seq<char>, i: int) -> Option<(u8, int)> {
    let j = digits_end(s, i);
    if j == i || digits_value(s.subrange(i, j)) > 255 || (j < s.len() && !is_white_space(s[j])) {
        None
    } else {
        Some((digits_value(s.subrange(i, j)) as u8, j))
    }
}

/// Three numbers from 0 to 255 at the start of `s`, separated by white
/// space, with the index after the third.
pub open spec fn rgb_at_start(s: Seq<char>) -> Option<([u8; 3], int)> {
    match byte_at(s, 0) {
        None => None,
        Some((r, i1)) => match byte_at(s, white_space_end(s, i1)) {
            None => None,
            Some((g, i2)) => match byte_at(s, white_space_end(s, i2)) {
                None => None,
                Some((b, i3)) => Some(([r, g, b], i3)),
            },
        },
    }
}

/// Index after the white space starting at `i`.
pub fn skip_white_space(v: &Vec<char>, i: usize) -> (j: usize)
    requires
        i <= v@.len(),
    ensures
        j == white_space_end(v@, i as int),
        i <= j <= v@.len(),
{
    let mut j = i;
    while j < v.len() && is_white_space_char(v[j])
        invariant
            i <= j <= v@.len(),
            white_space_end(v@, i as int) == white_space_end(v@, j as int),
        decreases v@.len() - j,
    {
        j = j + 1;
    }
    j
}

/// The byte written in decimal at `i`, as `byte_at` describes it.
pub fn read_byte_at(v: &Vec<char>, i: usize) -> (res: Option<(u8, usize)>)
    requires
        i <= v@.len(),
    ensures
        match byte_at(v@, i as int) {
            None => res is None,
            Some((x, j)) => res matches Some((y, k)) && y == x && k == j && i < j <= v@.len(),
        },
{
    let mut j = i;
    let mut acc: u32 = 0;
    while j < v.len() && '0' <= v[j] && v[j] <= '9'
        invariant
            i <= j <= v@.len(),
            digits_end(v@, i as int) == digits_end(v@, j as int),
            all_decimal(v@.subrange(i as int, j as int)),
            digits_value(v@.subrange(i as int, j as int)) <= 255 ==> acc == digits_value(
                v@.subrange(i as int, j as int),
            ),
            digits_value(v@.subrange(i as int, j as int)) > 255 ==> acc > 255,
            acc <= 2559,
        decreases v@.len() - j,
    {
        let d = ((v[j] as u32) - ('0' as u32));
        assert(v@.subrange(i as int, j + 1).drop_last() == v@.subrange(i as int, j as int));
        assert(v@.subrange(i as int, j + 1).last() == v@[j as int]);
        assert(all_decimal(v@.subrange(i as int, j + 1)));
        if acc <= 255 {
            acc = acc * 10 + d;
        }
        j = j + 1;
    }
    if j == i || acc > 255 || (j < v.len() && !is_white_space_char(v[j])) {
        return None;
    }
    Some((acc as u8, j))
}

/// Three bytes at the start of the characters, as `rgb_at_start` describes them.
pub fn read_rgb(v: &Vec<char>) -> (res: Option<([u8; 3], usize)>)
    ensures
        match rgb_at_start(v@) {
            None => res is None,
            Some((c, j)) => res matches Some((d, k)) && d == c && k == j && j <= v@.len(),
        },
{
    let (r, i1) = match read_byte_at(v, 0) {
        Some(t) => t,
        None => return None,
    };
    assert(byte_at(v@, 0) == Some((r, i1 as int)));
    let k1 = skip_white_space(v, i1);
    let (g, i2) = match read_byte_at(v, k1) {
        Some(t) => t,
        None => {
            assert(byte_at(v@, white_space_end(v@, i1 as int)) is None);
            return None;
        },
    };
    assert(byte_at(v@, white_space_end(v@, i1 as int)) == Some((g, i2 as int)));
    let k2 = skip_white_space(v, i2);
    let (b, i3) = match read_byte_at(v, k2) {
        Some(t) => t,
        None => {
            assert(byte_at(v@, white_space_end(v@, i2 as int)) is None);
            return None;
        },
    };
    assert(byte_at(v@, white_space_end(v@, i2 as int)) == Some((b, i3 as int)));
    Some(([r, g, b], i3))
}

/// Whether `s` starts with `p`.
pub open spec fn starts_with(s: Seq<char>, p: Seq<char>) -> bool {
    s.len() >= p.len() && s.subrange(0, p.len() as int) == p
}

/// Whether the characters start with the text `p`.
pub fn chars_start_with(v: &Vec<char>, p: &str) -> (b: bool)
    ensures
        b == starts_with(v@, p@),
{
    let pv = chars_of(p);
    if v.len() < pv.len() {
        return false;
    }
    let mut i: usize = 0;
    while i < pv.len()
        invariant
            pv@ == p@,
            pv@.len() <= v@.len(),
            i <= pv@.len(),
            forall|k: int| 0 <= k < i ==> v@[k] == pv@[k],
        decreases pv@.len() - i,
    {
        if v[i] != pv[i] {
            assert(v@.subrange(0, pv@.len() as int)[i as int] != pv@[i as int]);
            return false;
        }
        i = i + 1;
    }
    assert(v@.subrange(0, pv@.len() as int) =~= pv@);
    true
}

/// Whether the characters are exactly the text `p`.
pub fn chars_equal(v: &Vec<char>, p: &str) -> (b: bool)
    ensures
        b == (v@ == p@),
{
    let pv = chars_of(p);
    if v.len() != pv.len() {
        return false;
    }
    let r = chars_start_with(v, p);
    proof {
        assert(v@.len() == p@.len());
        assert(v@ =~= v@.subrange(0, p@.len() as int));
    }
    r
}

/// A copy of `v[a..b]`.
pub fn chars_slice(v: &Vec<char>, a: usize, b: usize) -> (w: Vec<char>)
    requires
        a <= b <= v@.len(),
    ensures
        w@ == v@.subrange(a as int, b as int),
{
    let mut w: Vec<char> = Vec::with_capacity(b - a);
    let mut i = a;
    while i < b
        invariant
            a <= i <= b <= v@.len(),
            w@ == v@.subrange(a as int, i as int),
        decreases b - i,
    {
        w.push(v[i]);
        assert(v@.subrange(a as int, i + 1) == v@.subrange(a as int, i as int).push(v@[i as int]));
        i = i + 1;
    }
    w
}

/// The decimal representation of `n` is a string of decimal digits that
/// reads back as `n`, with no leading zero.
pub proof fn law_decimal_reads_back(n: nat)
    ensures
        decimal(n).len() > 0,
        all_decimal(decimal(n)),
        digits_value(decimal(n)) == n,
        n > 0 ==> decimal(n)[0] != '0',
        decimal(n).len() > 1 ==> decimal(n)[0] != '0',
    decreases n,
{
    if n < 10 {
        assert(digit_char(n as int) as int == 48 + n);
        assert(decimal(n).drop_last() == Seq::<char>::empty());
        assert(decimal(n).last() == digit_char(n as int));
        assert(digits_value(Seq::<char>::empty()) == 0);
    } else {
        law_decimal_reads_back(n / 10);
        let d = decimal(n / 10);
        let c = digit_char((n % 10) as int);
        assert(c as int == 48 + n % 10);
        assert(decimal(n).drop_last() == d);
        assert(decimal(n)[0] == d[0]);
        assert(decimal(n).last() == c);
        assert(digits_value(decimal(n)) == digits_value(d) * 10 + (c as int - '0' as int));
        assert(n == (n / 10) * 10 + n % 10);
        assert(all_decimal(decimal(n))) by {
            assert forall|i: int| 0 <= i < decimal(n).len() implies '0' <= #[trigger] decimal(n)[i] <= '9' by {
                if i < d.len() {
                    assert(decimal(n)[i] == d[i]);
                }
            }
        }
    }
}
proof fn lemma_digit_run_end(s: Seq<char>, i: int, len: int, k: int)
    requires
        0 <= i,
        0 <= k <= len,
        i + len <= s.len(),
        forall|m: int| i <= m < i + len ==> is_digit(#[trigger] s[m]),
        i + len == s.len() || !is_digit(s[i + len]),
    ensures
        digits_end(s, i + k) == i + len,
    decreases len - k,
{
    if k < len {
        lemma_digit_run_end(s, i, len, k + 1);
    }
}

proof fn lemma_white_run_end(s: Seq<char>, i: int, len: int, k: int)
    requires
        0 <= i,
        0 <= k <= len,
        i + len <= s.len(),
        forall|m: int| i <= m < i + len ==> is_white_space(#[trigger] s[m]),
        i + len == s.len() || !is_white_space(s[i + len]),
    ensures
        white_space_end(s, i + k) == i + len,
    decreases len - k,
{
    if k < len {
        lemma_white_run_end(s, i, len, k + 1);
    }
}

/// The byte written in decimal at `i` of `s`, followed by white space or the
/// end of `s`, is read back by `byte_at`.
proof fn lemma_byte_at_decimal(s: Seq<char>, i: int, v: u8)
    requires
        0 <= i,
        i + decimal(v as nat).len() <= s.len(),
        s.subrange(i, i + decimal(v as nat).len()) == decimal(v as nat),
        i + decimal(v as nat).len() == s.len() || is_white_space(s[i + decimal(v as nat).len()]),
    ensures
        byte_at(s, i) == Some((v, i + decimal(v as nat).len())),
{
    let d = decimal(v as nat);
    law_decimal_reads_back(v as nat);
    assert forall|m: int| i <= m < i + d.len() implies is_digit(#[trigger] s[m]) by {
        assert(s[m] == d[m - i]);
        assert('0' <= d[m - i] <= '9');
    }
    lemma_digit_run_end(s, i, d.len() as int, 0);
}

/// Three bytes written in decimal, separated by runs of white space and
/// followed by white space or nothing, are read back in order by
/// `rgb_at_start` (the form of a colour line of a GIMP or JASC palette).
pub proof fn law_rgb_line_reads_back(r: u8, g: u8, b: u8, w1: Seq<char>, w2: Seq<char>, tail: Seq<char>)
    requires
        w1.len() > 0,
        w2.len() > 0,
        forall|m: int| 0 <= m < w1.len() ==> is_white_space(#[trigger] w1[m]),
        forall|m: int| 0 <= m < w2.len() ==> is_white_space(#[trigger] w2[m]),
        tail.len() == 0 || is_white_space(tail[0]),
    ensures
        rgb_at_start(decimal(r as nat) + w1 + decimal(g as nat) + w2 + decimal(b as nat) + tail) == Some(
            ([r, g, b], (decimal(r as nat).len() + w1.len() + decimal(g as nat).len() + w2.len() + decimal(
                b as nat,
            ).len()) as int),
        ),
{
    let dr = decimal(r as nat);
    let dg = decimal(g as nat);
    let db = decimal(b as nat);
    let s = dr + w1 + dg + w2 + db + tail;
    law_decimal_reads_back(r as nat);
    law_decimal_reads_back(g as nat);
    law_decimal_reads_back(b as nat);
    let i1 = dr.len() as int;
    let j1 = i1 + w1.len();
    let i2 = j1 + dg.len();
    let j2 = i2 + w2.len();
    let i3 = j2 + db.len();
    assert(s.subrange(0, i1) == dr);
    assert(s[i1] == w1[0]);
    lemma_byte_at_decimal(s, 0, r);
    assert forall|m: int| i1 <= m < j1 implies is_white_space(#[trigger] s[m]) by {
        assert(s[m] == w1[m - i1]);
    }
    assert(s[j1] == dg[0]);
    assert('0' <= dg[0] <= '9');
    lemma_white_run_end(s, i1, w1.len() as int, 0);
    assert(s.subrange(j1, i2) == dg);
    assert(s[i2] == w2[0]);
    lemma_byte_at_decimal(s, j1, g);
    assert forall|m: int| i2 <= m < j2 implies is_white_space(#[trigger] s[m]) by {
        assert(s[m] == w2[m - i2]);
    }
    assert(s[j2] == db[0]);
    assert('0' <= db[0] <= '9');
    lemma_white_run_end(s, i2, w2.len() as int, 0);
    assert(s.subrange(j2, i3) == db);
    if tail.len() > 0 {
        assert(s[i3] == tail[0]);
    }
    lemma_byte_at_decimal(s, j2, b);
}

} // verus!
