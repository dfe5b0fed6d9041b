//! Text: numbers and colours in digits, and escaping for HTML.

use vstd::prelude::*;

verus! {

/// Appends one character, as `String::push` does: the text grows by exactly
/// that character.
pub assume_specification[ String::push ](s: &mut String, c: char)
    ensures
        final(s)@ == old(s)@.push(c),
;

/// The hexadecimal digit of a value below 16.
pub open spec fn hex_digit(v: int, upper: bool) -> char {
    if v < 10 {
        (48 + v) as u8 as char
    } else if upper {
        (55 + v) as u8 as char
    } else {
        (87 + v) as u8 as char
    }
}

fn hex_char(v: u8, upper: bool) -> (c: char)
    requires
        v < 16,
    ensures
        c == hex_digit(v as int, upper),
{
    if v < 10 {
        (48 + v) as char
    } else if upper {
        (55 + v) as char
    } else {
        (87 + v) as char
    }
}

/// A colour as `#` and two digits for each channel.
pub open spec fn hex_text(rgb: [u8; 3], upper: bool) -> Seq<char> {
    seq![
        '#',
        hex_digit(rgb[0] as int / 16, upper),
        hex_digit(rgb[0] as int % 16, upper),
        hex_digit(rgb[1] as int / 16, upper),
        hex_digit(rgb[1] as int % 16, upper),
        hex_digit(rgb[2] as int / 16, upper),
        hex_digit(rgb[2] as int % 16, upper),
    ]
}

/// Appends a colour in hexadecimal digits.
pub fn push_hex(out: &mut String, rgb: [u8; 3], upper: bool)
    ensures
        final(out)@ == old(out)@ + hex_text(rgb, upper),
{
    let ghost start = out@;
    out.push('#');
    out.push(hex_char(rgb[0] / 16, upper));
    out.push(hex_char(rgb[0] % 16, upper));
    out.push(hex_char(rgb[1] / 16, upper));
    out.push(hex_char(rgb[1] % 16, upper));
    out.push(hex_char(rgb[2] / 16, upper));
    out.push(hex_char(rgb[2] % 16, upper));
    assert(out@ =~= start + hex_text(rgb, upper));
}

/// A colour in lower-case hexadecimal digits.
pub fn rgb_to_hex(rgb: [u8; 3]) -> (s: String)
    ensures
        s@ == hex_text(rgb, false),
{
    let mut s = String::new();
    push_hex(&mut s, rgb, false);
    assert(s@ =~= hex_text(rgb, false));
    s
}

/// A colour in upper-case hexadecimal digits.
pub fn rgb_to_hex_upper(rgb: [u8; 3]) -> (s: String)
    ensures
        s@ == hex_text(rgb, true),
{
    let mut s = String::new();
    push_hex(&mut s, rgb, true);
    assert(s@ =~= hex_text(rgb, true));
    s
}

/// The value of a hexadecimal digit.
pub open spec fn digit_value(c: char) -> Option<int> {
    if '0' <= c <= '9' {
        Some(c as int - 48)
    } else if 'a' <= c <= 'f' {
        Some(c as int - 87)
    } else if 'A' <= c <= 'F' {
        Some(c as int - 55)
    } else {
        None
    }
}

fn parse_digit(c: char) -> (v: Option<u8>)
    ensures
        match digit_value(c) {
            Some(d) => v is Some && v->Some_0 == d && d < 16,
            None => v is None,
        },
{
    if '0' <= c && c <= '9' {
        Some((c as u32 - 48) as u8)
    } else if 'a' <= c && c <= 'f' {
        Some((c as u32 - 87) as u8)
    } else if 'A' <= c && c <= 'F' {
        Some((c as u32 - 55) as u8)
    } else {
        None
    }
}

/// The number that two characters write in hexadecimal, a sign before a single
/// digit allowed; 0 where they write none.
pub open spec fn pair_value(a: char, b: char) -> int {
    match digit_value(b) {
        Some(lo) => match digit_value(a) {
            Some(hi) => 16 * hi + lo,
            None => if a == '+' {
                lo
            } else {
                0
            },
        },
        None => 0,
    }
}

/// The number that two characters write in hexadecimal, or 0.
pub fn parse_pair(a: char, b: char) -> (v: u8)
    ensures
        v == pair_value(a, b),
{
    match parse_digit(b) {
        Some(lo) => match parse_digit(a) {
            Some(hi) => 16 * hi + lo,
            None => if a == '+' {
                lo
            } else {
                0
            },
        },
        None => 0,
    }
}

/// The colour that a text writes behind its first character.
pub open spec fn hex_value(s: Seq<char>) -> [u8; 3] {
    [
        pair_value(s[1], s[2]) as u8,
        pair_value(s[3], s[4]) as u8,
        pair_value(s[5], s[6]) as u8,
    ]
}

/// Reads a colour; a channel that is no number becomes 0.
pub fn parse_hex(hex: &str) -> (rgb: [u8; 3])
    requires
        hex@.len() >= 7,
    ensures
        rgb == hex_value(hex@),
{
    let rgb = [
        parse_pair(hex.get_char(1), hex.get_char(2)),
        parse_pair(hex.get_char(3), hex.get_char(4)),
        parse_pair(hex.get_char(5), hex.get_char(6)),
    ];
    assert(rgb@ =~= hex_value(hex@)@);
    rgb
}

/// Reading back a written colour gives the colour.
pub proof fn hex_round_trip(rgb: [u8; 3], upper: bool)
    ensures
        pair_value(hex_text(rgb, upper)[1], hex_text(rgb, upper)[2]) == rgb[0],
        pair_value(hex_text(rgb, upper)[3], hex_text(rgb, upper)[4]) == rgb[1],
        pair_value(hex_text(rgb, upper)[5], hex_text(rgb, upper)[6]) == rgb[2],
        hex_value(hex_text(rgb, upper)) == rgb,
{
    digit_round_trip(rgb[0] as int / 16, upper);
    digit_round_trip(rgb[0] as int % 16, upper);
    digit_round_trip(rgb[1] as int / 16, upper);
    digit_round_trip(rgb[1] as int % 16, upper);
    digit_round_trip(rgb[2] as int / 16, upper);
    digit_round_trip(rgb[2] as int % 16, upper);
    assert(hex_value(hex_text(rgb, upper))@ =~= rgb@);
}

proof fn digit_round_trip(v: int, upper: bool)
    requires
        0 <= v < 16,
    ensures
        digit_value(hex_digit(v, upper)) == Some(v),
{
}

/// A number in decimal digits.
pub open spec fn decimal(n: int) -> Seq<char>
    decreases n,
{
    if n < 10 {
        seq![(48 + n) as u8 as char]
    } else {
        decimal(n / 10).push((48 + n % 10) as u8 as char)
    }
}

/// Appends a number in decimal digits.
pub fn push_decimal(out: &mut String, n: u64)
    ensures
        final(out)@ == old(out)@ + decimal(n as int),
    decreases n,
{
    let ghost start = out@;
    if n >= 10 {
        push_decimal(out, n / 10);
    }
    out.push((48 + (n % 10) as u8) as char);
    assert(out@ =~= start + decimal(n as int));
}

/// The digits of a colour tell its channels in their order, red first, the upper
/// half of each before the lower, and are letters of the wanted case.
pub proof fn hex_tells_channels(rgb: [u8; 3], upper: bool, c: int)
    requires
        0 <= c < 3,
    ensures
        hex_text(rgb, upper).len() == 7,
        hex_text(rgb, upper)[0] == '#',
        digit_value(hex_text(rgb, upper)[1 + 2 * c]) == Some(rgb[c] as int / 16),
        digit_value(hex_text(rgb, upper)[2 + 2 * c]) == Some(rgb[c] as int % 16),
        !upper ==> !('A' <= hex_text(rgb, upper)[1 + 2 * c] <= 'F') && !('A' <= hex_text(
            rgb,
            upper,
        )[2 + 2 * c] <= 'F'),
        upper ==> !('a' <= hex_text(rgb, upper)[1 + 2 * c] <= 'f') && !('a' <= hex_text(
            rgb,
            upper,
        )[2 + 2 * c] <= 'f'),
{
}

/// Decimal digits read as a number.
pub open spec fn decimal_value(s: Seq<char>) -> int
    decreases s.len(),
{
    if s.len() == 0 {
        0
    } else {
        10 * decimal_value(s.drop_last()) + (s.last() as int - 48)
    }
}

/// A number in decimal digits reads as the number, and starts with zero only where
/// it is zero.
pub proof fn decimal_reads_back(n: int)
    requires
        0 <= n,
    ensures
        decimal_value(decimal(n)) == n,
        decimal(n).len() >= 1,
        forall|i: int| 0 <= i < decimal(n).len() ==> '0' <= #[trigger] decimal(n)[i] <= '9',
        n > 0 ==> decimal(n)[0] != '0',
    decreases n,
{
    let s = decimal(n);
    if n >= 10 {
        decimal_reads_back(n / 10);
        assert(s.drop_last() =~= decimal(n / 10));
    } else {
        assert(s.drop_last() =~= seq![]);
        assert(decimal_value(s.drop_last()) == 0);
    }
}

/// How a character is written in HTML: quotes too where `quotes` says so.
pub open spec fn escaped_char(c: char, quotes: bool) -> Seq<char> {
    if c == '&' {
        "&amp;"@
    } else if c == '<' {
        "&lt;"@
    } else if c == '>' {
        "&gt;"@
    } else if quotes && c == '"' {
        "&quot;"@
    } else if quotes && c == '\'' {
        "&#39;"@
    } else {
        seq![c]
    }
}

/// The first `k` characters of a text as written in HTML.
pub open spec fn escaped(s: Seq<char>, quotes: bool, k: int) -> Seq<char>
    decreases k,
{
    if k <= 0 {
        seq![]
    } else {
        escaped(s, quotes, k - 1) + escaped_char(s[k - 1], quotes)
    }
}

/// A whole text as written in HTML.
pub open spec fn escaped_text(s: Seq<char>, quotes: bool) -> Seq<char> {
    escaped(s, quotes, s.len() as int)
}

fn push_escaped(out: &mut String, s: &str, quotes: bool)
    ensures
        final(out)@ == old(out)@ + escaped(s@, quotes, s@.len() as int),
{
    let ghost start = out@;
    assert(start + escaped(s@, quotes, 0) =~= start);
    for c in it: s.chars()
        invariant
            it.seq() == s@,
            out@ == start + escaped(s@, quotes, it.index() as int),
    {
        let ghost before = out@;
        if c == '&' {
            out.append("&amp;");
        } else if c == '<' {
            out.append("&lt;");
        } else if c == '>' {
            out.append("&gt;");
        } else if quotes && c == '"' {
            out.append("&quot;");
        } else if quotes && c == '\'' {
            out.append("&#39;");
        } else {
            out.push(c);
        }
        assert(out@ =~= before + escaped_char(c, quotes));
        assert(out@ =~= start + escaped(s@, quotes, it.index() + 1));
    }
}

/// The text with `&`, `<`, `>` and both quotes escaped for HTML.
pub fn html_escape(s: &str) -> (out: String)
    ensures
        out@ == escaped_text(s@, true),
{
    let mut out = String::new();
    push_escaped(&mut out, s, true);
    assert(out@ =~= escaped(s@, true, s@.len() as int));
    out
}

/// The text with `&`, `<` and `>` escaped for HTML.
pub fn escape_html(s: &str) -> (out: String)
    ensures
        out@ == escaped_text(s@, false),
{
    let mut out = String::new();
    push_escaped(&mut out, s, false);
    assert(out@ =~= escaped(s@, false, s@.len() as int));
    out
}

/// Escaped text holds no angle bracket, and no quote either where quotes are
/// escaped.
pub proof fn escaped_is_safe(s: Seq<char>, quotes: bool, k: int, i: int)
    requires
        0 <= k <= s.len(),
        0 <= i < escaped(s, quotes, k).len(),
    ensures
        escaped(s, quotes, k)[i] != '<',
        escaped(s, quotes, k)[i] != '>',
        quotes ==> escaped(s, quotes, k)[i] != '"' && escaped(s, quotes, k)[i] != '\'',
    decreases k,
{
    reveal_strlit("&amp;");
    reveal_strlit("&lt;");
    reveal_strlit("&gt;");
    reveal_strlit("&quot;");
    reveal_strlit("&#39;");
    if k > 0 {
        let before = escaped(s, quotes, k - 1);
        if i < before.len() {
            escaped_is_safe(s, quotes, k - 1, i);
        } else {
            assert(escaped(s, quotes, k)[i] == escaped_char(s[k - 1], quotes)[i - before.len()]);
        }
    }
}

/// Text without special characters is not changed by escaping.
pub proof fn plain_text_is_kept(s: Seq<char>, quotes: bool, k: int)
    requires
        0 <= k <= s.len(),
        forall|i: int|
            #![trigger s[i]]
            0 <= i < k ==> s[i] != '&' && s[i] != '<' && s[i] != '>' && (quotes ==> s[i] != '"'
                && s[i] != '\''),
    ensures
        escaped(s, quotes, k) == s.take(k),
    decreases k,
{
    if k > 0 {
        plain_text_is_kept(s, quotes, k - 1);
        assert(escaped(s, quotes, k) =~= s.take(k));
    } else {
        assert(escaped(s, quotes, k) =~= s.take(k));
    }
}

proof fn escaped_agrees(s: Seq<char>, t: Seq<char>, quotes: bool, k: int)
    requires
        0 <= k <= s.len(),
        k <= t.len(),
        forall|i: int| 0 <= i < k ==> s[i] == t[i],
    ensures
        escaped(s, quotes, k) == escaped(t, quotes, k),
    decreases k,
{
    if k > 0 {
        escaped_agrees(s, t, quotes, k - 1);
    }
}

proof fn escaped_joins_from(a: Seq<char>, b: Seq<char>, quotes: bool, k: int)
    requires
        0 <= k <= b.len(),
    ensures
        escaped(a + b, quotes, a.len() + k) == escaped_text(a, quotes) + escaped(b, quotes, k),
    decreases k,
{
    let n = a.len() as int;
    if k > 0 {
        escaped_joins_from(a, b, quotes, k - 1);
        assert((a + b)[n + k - 1] == b[k - 1]);
        assert(n + k - 1 == n + (k - 1));
    } else {
        escaped_agrees(a + b, a, quotes, n);
    }
    assert(escaped(a + b, quotes, n + k) =~= escaped_text(a, quotes) + escaped(b, quotes, k));
}

/// Escaping works piece by piece: a joined text is written as its parts are.
pub proof fn escaping_joins(a: Seq<char>, b: Seq<char>, quotes: bool)
    ensures
        escaped_text(a + b, quotes) == escaped_text(a, quotes) + escaped_text(b, quotes),
{
    escaped_joins_from(a, b, quotes, b.len() as int);
}

proof fn escaped_splits(s: Seq<char>, quotes: bool)
    requires
        s.len() > 0,
    ensures
        escaped_text(s, quotes) == escaped_char(s[0], quotes) + escaped_text(s.skip(1), quotes),
{
    let a = s.take(1);
    assert(s =~= a + s.skip(1));
    escaping_joins(a, s.skip(1), quotes);
    assert(escaped(a, quotes, 0) =~= seq![]);
    assert(escaped_text(a, quotes) =~= escaped_char(s[0], quotes));
}

/// What is written for a character tells which it is, whatever follows.
proof fn escaped_char_tells(
    c: char,
    d: char,
    quotes: bool,
    x: Seq<char>,
    y: Seq<char>,
)
    requires
        escaped_char(c, quotes) + x == escaped_char(d, quotes) + y,
    ensures
        c == d,
        x == y,
{
    reveal_strlit("&amp;");
    reveal_strlit("&lt;");
    reveal_strlit("&gt;");
    reveal_strlit("&quot;");
    reveal_strlit("&#39;");
    let p = escaped_char(c, quotes);
    let q = escaped_char(d, quotes);
    let z = p + x;
    assert(z[0] == p[0] && z[0] == q[0]);
    if p.len() > 1 && q.len() > 1 {
        assert(z[1] == p[1] && z[1] == q[1]);
    }
    assert(p == q);
    assert(x =~= z.skip(p.len() as int));
    assert(y =~= z.skip(p.len() as int));
}

/// No two texts are written alike.
pub proof fn escaping_tells_texts_apart(s: Seq<char>, t: Seq<char>, quotes: bool)
    requires
        escaped_text(s, quotes) == escaped_text(t, quotes),
    ensures
        s == t,
    decreases s.len(),
{
    reveal_strlit("&amp;");
    reveal_strlit("&lt;");
    reveal_strlit("&gt;");
    reveal_strlit("&quot;");
    reveal_strlit("&#39;");
    if s.len() > 0 {
        escaped_splits(s, quotes);
        assert(escaped_char(s[0], quotes).len() > 0);
        assert(escaped_text(s, quotes).len() > 0);
    }
    if t.len() > 0 {
        escaped_splits(t, quotes);
        assert(escaped_char(t[0], quotes).len() > 0);
        assert(escaped_text(t, quotes).len() > 0);
    }
    if s.len() > 0 && t.len() > 0 {
        let x = escaped_text(s.skip(1), quotes);
        let y = escaped_text(t.skip(1), quotes);
        escaped_char_tells(s[0], t[0], quotes, x, y);
        escaping_tells_texts_apart(s.skip(1), t.skip(1), quotes);
        assert(s =~= seq![s[0]] + s.skip(1));
        assert(t =~= seq![t[0]] + t.skip(1));
    } else {
        assert(s =~= t);
    }
}

/// How often a character occurs in a text.
pub open spec fn occurrences(s: Seq<char>, c: char) -> nat
    decreases s.len(),
{
    if s.len() == 0 {
        0
    } else {
        occurrences(s.drop_last(), c) + if s.last() == c {
            1nat
        } else {
            0nat
        }
    }
}

proof fn occurrences_of_joined(a: Seq<char>, b: Seq<char>, c: char)
    ensures
        occurrences(a + b, c) == occurrences(a, c) + occurrences(b, c),
    decreases b.len(),
{
    if b.len() == 0 {
        assert(a + b =~= a);
    } else {
        occurrences_of_joined(a, b.drop_last(), c);
        assert((a + b).drop_last() =~= a + b.drop_last());
    }
}

/// Occurrences in a joined text add up.
pub proof fn occurrences_add_up(c: char)
    ensures
        forall|a: Seq<char>, b: Seq<char>| #[trigger]
            occurrences(a + b, c) == occurrences(a, c) + occurrences(b, c),
{
    assert forall|a: Seq<char>, b: Seq<char>| #[trigger]
        occurrences(a + b, c) == occurrences(a, c) + occurrences(b, c) by {
        occurrences_of_joined(a, b, c);
    }
}

proof fn absent_is_not_counted(s: Seq<char>, c: char)
    requires
        forall|i: int| 0 <= i < s.len() ==> s[i] != c,
    ensures
        occurrences(s, c) == 0,
    decreases s.len(),
{
    if s.len() > 0 {
        absent_is_not_counted(s.drop_last(), c);
    }
}

/// Escaped text adds no angle bracket to a page, and no quote either where quotes
/// are escaped.
pub proof fn escaped_adds_no_marks(s: Seq<char>, quotes: bool, c: char)
    requires
        c == '<' || c == '>' || quotes && (c == '"' || c == '\''),
    ensures
        occurrences(escaped_text(s, quotes), c) == 0,
{
    let e = escaped_text(s, quotes);
    assert forall|i: int| 0 <= i < e.len() implies e[i] != c by {
        escaped_is_safe(s, quotes, s.len() as int, i);
    }
    absent_is_not_counted(e, c);
}

} // verus!
