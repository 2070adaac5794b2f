//! Characters and strings: the classes the segmenter tells apart, and the
//! conversions between `str` and sequences of characters.
use vstd::prelude::*;

verus! {

/// A run of characters as a half-open range of character positions.
pub type Span = (usize, usize);

/// `sp` cuts the positions `a..b` into non-empty, touching ranges, in order.
pub open spec fn tiles(sp: Seq<Span>, a: int, b: int) -> bool {
    if sp.len() == 0 {
        a == b
    } else {
        &&& sp[0].0 == a
        &&& sp.last().1 == b
        &&& forall|k: int| 0 <= k < sp.len() ==> #[trigger] sp[k].0 < sp[k].1
        &&& forall|k: int| 0 <= k < sp.len() - 1 ==> #[trigger] sp[k].1 == sp[k + 1].0
    }
}

/// The pieces of `s` that the spans `sp` name.
pub open spec fn pieces(s: Seq<char>, sp: Seq<Span>) -> Seq<Seq<char>> {
    sp.map_values(|p: Span| s.subrange(p.0 as int, p.1 as int))
}

/// The views of a sequence of strings.
pub open spec fn views(ws: Seq<String>) -> Seq<Seq<char>> {
    ws.map_values(|w: String| w@)
}

pub proof fn lemma_tiles_concat(x: Seq<Span>, y: Seq<Span>, a: int, b: int, c: int)
    requires
        tiles(x, a, b),
        tiles(y, b, c),
    ensures
        tiles(x + y, a, c),
{
    let z = x + y;
    if x.len() == 0 {
        assert(z =~= y);
    } else if y.len() == 0 {
        assert(z =~= x);
    } else {
        assert(z[0] == x[0]);
        assert(z.last() == y.last());
        assert forall|k: int| 0 <= k < z.len() implies #[trigger] z[k].0 < z[k].1 by {
            if k < x.len() {
                assert(z[k] == x[k]);
            } else {
                assert(z[k] == y[k - x.len()]);
            }
        }
        assert forall|k: int| 0 <= k < z.len() - 1 implies #[trigger] z[k].1 == z[k + 1].0 by {
            if k < x.len() - 1 {
                assert(z[k] == x[k] && z[k + 1] == x[k + 1]);
            } else if k == x.len() - 1 {
                assert(z[k] == x.last() && z[k + 1] == y[0]);
            } else {
                assert(z[k] == y[k - x.len()] && z[k + 1] == y[k + 1 - x.len()]);
            }
        }
    }
}

/// The pieces named by spans that tile `a..b` make up `s[a..b]` again.
pub proof fn lemma_tiles_flatten(s: Seq<char>, sp: Seq<Span>, a: int, b: int)
    requires
        tiles(sp, a, b),
        0 <= a <= b <= s.len(),
    ensures
        pieces(s, sp).flatten() == s.subrange(a, b),
    decreases sp.len(),
{
    if sp.len() == 0 {
        assert(s.subrange(a, b) =~= Seq::<char>::empty());
    } else {
        let p = sp.last();
        let s0 = sp.drop_last();
        assert(tiles(s0, a, p.0 as int)) by {
            if s0.len() > 0 {
                assert(s0.last() == sp[sp.len() - 2]);
                assert(sp[sp.len() - 2].1 == sp[sp.len() - 1].0);
                assert forall|k: int| 0 <= k < s0.len() - 1 implies #[trigger] s0[k].1 == s0[k + 1].0 by {
                    assert(s0[k] == sp[k] && s0[k + 1] == sp[k + 1]);
                }
                assert forall|k: int| 0 <= k < s0.len() implies #[trigger] s0[k].0 < s0[k].1 by {
                    assert(s0[k] == sp[k]);
                }
            } else {
                assert(p == sp[0]);
            }
        }
        assert(sp[sp.len() - 1].0 < sp[sp.len() - 1].1);
        lemma_tiles_bounds(s0, a, p.0 as int);
        lemma_tiles_flatten(s, s0, a, p.0 as int);
        assert(pieces(s, sp) =~= pieces(s, s0).push(s.subrange(p.0 as int, p.1 as int)));
        pieces(s, s0).lemma_flatten_push(s.subrange(p.0 as int, p.1 as int));
        assert(s.subrange(a, p.0 as int) + s.subrange(p.0 as int, b) =~= s.subrange(a, b));
    }
}

pub proof fn lemma_tiles_bounds(sp: Seq<Span>, a: int, b: int)
    requires
        tiles(sp, a, b),
    ensures
        a <= b,
        forall|k: int| 0 <= k < sp.len() ==> a <= #[trigger] sp[k].0 && sp[k].1 <= b,
    decreases sp.len(),
{
    if sp.len() > 0 {
        let s0 = sp.drop_last();
        let p = sp.last();
        if s0.len() > 0 {
            assert(tiles(s0, a, p.0 as int)) by {
                assert(s0.last() == sp[sp.len() - 2]);
                assert(sp[sp.len() - 2].1 == sp[sp.len() - 1].0);
                assert forall|k: int| 0 <= k < s0.len() - 1 implies #[trigger] s0[k].1 == s0[k + 1].0 by {
                    assert(s0[k] == sp[k] && s0[k + 1] == sp[k + 1]);
                }
                assert forall|k: int| 0 <= k < s0.len() implies #[trigger] s0[k].0 < s0[k].1 by {
                    assert(s0[k] == sp[k]);
                }
            }
            lemma_tiles_bounds(s0, a, p.0 as int);
            assert(sp[sp.len() - 1].0 < sp[sp.len() - 1].1);
            assert forall|k: int| 0 <= k < sp.len() implies a <= #[trigger] sp[k].0 && sp[k].1 <= b by {
                if k < sp.len() - 1 {
                    assert(sp[k] == s0[k]);
                }
            }
        } else {
            assert(sp[0].0 < sp[0].1);
        }
    }
}

/// A character of `[A-Za-z0-9]`.
pub open spec fn is_ascii_alnum(c: char) -> bool {
    ('a' <= c && c <= 'z') || ('A' <= c && c <= 'Z') || ('0' <= c && c <= '9')
}

/// A character of `[0-9]`.
pub open spec fn is_ascii_digit(c: char) -> bool {
    '0' <= c && c <= '9'
}

pub fn ascii_alnum(c: char) -> (r: bool)
    ensures
        r == is_ascii_alnum(c),
{
    ('a' <= c && c <= 'z') || ('A' <= c && c <= 'Z') || ('0' <= c && c <= '9')
}

pub fn ascii_digit(c: char) -> (r: bool)
    ensures
        r == is_ascii_digit(c),
{
    '0' <= c && c <= '9'
}

/// A character of the CJK unified ideographs, their extensions A to F, or
/// the compatibility ideographs.
pub open spec fn is_cjk(c: char) -> bool {
    ('\u{3400}' <= c && c <= '\u{4DBF}') || ('\u{4E00}' <= c && c <= '\u{9FFF}') || ('\u{F900}' <= c && c
        <= '\u{FAFF}') || ('\u{20000}' <= c && c <= '\u{2A6DF}') || ('\u{2A700}' <= c && c <= '\u{2B73F}') || (
    '\u{2B740}' <= c && c <= '\u{2B81F}') || ('\u{2B820}' <= c && c <= '\u{2CEAF}') || ('\u{2CEB0}' <= c && c
        <= '\u{2EBEF}') || ('\u{2F800}' <= c && c <= '\u{2FA1F}')
}

/// A character with the Unicode `White_Space` property.
pub open spec fn is_white_space(c: char) -> bool {
    ('\u{9}' <= c && c <= '\u{D}') || c == ' ' || c == '\u{85}' || c == '\u{A0}' || c == '\u{1680}' || (
    '\u{2000}' <= c && c <= '\u{200A}') || c == '\u{2028}' || c == '\u{2029}' || c == '\u{202F}' || c
        == '\u{205F}' || c == '\u{3000}'
}

/// The span `p` of `s` is all white space or holds none.
pub open spec fn unmixed(s: Seq<char>, p: Span) -> bool {
    forall|a: int, b: int|
        #![trigger is_white_space(s[a]), is_white_space(s[b])]
        p.0 <= a < p.1 && p.0 <= b < p.1 && is_white_space(s[a]) ==> is_white_space(s[b])
}

/// The character classes whose runs split a text into blocks.
#[derive(Clone, Copy, PartialEq, Eq, Debug)]
pub enum CharClass {
    /// Characters that form words in the default modes: CJK, ASCII letters
    /// and digits, and `+#&._%-`.
    Han,
    /// Characters that form words in full mode: CJK only.
    HanAll,
    /// Characters that the hidden Markov model labels: U+4E00 to U+9FD5.
    HanHmm,
    /// Characters that full mode keeps together outside CJK blocks:
    /// ASCII letters and digits, `+`, `#` and the line feed.
    Kept,
    /// ASCII letters and digits.
    Alnum,
    /// ASCII digits.
    Digit,
    /// Characters with the Unicode `White_Space` property.
    Space,
    /// The line feed.
    LineFeed,
}

pub open spec fn in_class(k: CharClass, c: char) -> bool {
    match k {
        CharClass::Han => is_cjk(c) || is_ascii_alnum(c) || c == '+' || c == '#' || c == '&' || c == '.' || c
            == '_' || c == '%' || c == '-',
        CharClass::HanAll => is_cjk(c),
        CharClass::HanHmm => '\u{4E00}' <= c && c <= '\u{9FD5}',
        CharClass::Kept => is_ascii_alnum(c) || c == '+' || c == '#' || c == '\n',
        CharClass::Alnum => is_ascii_alnum(c),
        CharClass::Digit => is_ascii_digit(c),
        CharClass::Space => is_white_space(c),
        CharClass::LineFeed => c == '\n',
    }
}

pub fn cjk(c: char) -> (r: bool)
    ensures
        r == is_cjk(c),
{
    ('\u{3400}' <= c && c <= '\u{4DBF}') || ('\u{4E00}' <= c && c <= '\u{9FFF}') || ('\u{F900}' <= c && c
        <= '\u{FAFF}') || ('\u{20000}' <= c && c <= '\u{2A6DF}') || ('\u{2A700}' <= c && c <= '\u{2B73F}') || (
    '\u{2B740}' <= c && c <= '\u{2B81F}') || ('\u{2B820}' <= c && c <= '\u{2CEAF}') || ('\u{2CEB0}' <= c && c
        <= '\u{2EBEF}') || ('\u{2F800}' <= c && c <= '\u{2FA1F}')
}

pub fn white_space(c: char) -> (r: bool)
    ensures
        r == is_white_space(c),
{
    ('\u{9}' <= c && c <= '\u{D}') || c == ' ' || c == '\u{85}' || c == '\u{A0}' || c == '\u{1680}' || (
    '\u{2000}' <= c && c <= '\u{200A}') || c == '\u{2028}' || c == '\u{2029}' || c == '\u{202F}' || c
        == '\u{205F}' || c == '\u{3000}'
}

pub fn class_has(k: CharClass, c: char) -> (r: bool)
    ensures
        r == in_class(k, c),
{
    match k {
        CharClass::Han => cjk(c) || ascii_alnum(c) || c == '+' || c == '#' || c == '&' || c == '.' || c == '_'
            || c == '%' || c == '-',
        CharClass::HanAll => cjk(c),
        CharClass::HanHmm => '\u{4E00}' <= c && c <= '\u{9FD5}',
        CharClass::Kept => ascii_alnum(c) || c == '+' || c == '#' || c == '\n',
        CharClass::Alnum => ascii_alnum(c),
        CharClass::Digit => ascii_digit(c),
        CharClass::Space => white_space(c),
        CharClass::LineFeed => c == '\n',
    }
}

/// The end of the run that starts at `i` of characters whose membership in
/// `k` is `inside`, not going past `end`.
pub open spec fn run_end(s: Seq<char>, i: int, end: int, k: CharClass, inside: bool) -> int
    decreases end - i,
{
    if i >= end || i < 0 || i >= s.len() || in_class(k, s[i]) != inside {
        i
    } else {
        run_end(s, i + 1, end, k, inside)
    }
}

pub proof fn lemma_run_end(s: Seq<char>, i: int, end: int, k: CharClass, inside: bool)
    requires
        0 <= i <= end <= s.len(),
    ensures
        i <= run_end(s, i, end, k, inside) <= end,
        forall|p: int| i <= p < run_end(s, i, end, k, inside) ==> in_class(k, #[trigger] s[p]) == inside,
        run_end(s, i, end, k, inside) < end ==> in_class(k, s[run_end(s, i, end, k, inside)]) != inside,
    decreases end - i,
{
    if i < end && in_class(k, s[i]) == inside {
        lemma_run_end(s, i + 1, end, k, inside);
    }
}

pub fn find_run_end(s: &Vec<char>, i: usize, end: usize, k: CharClass, inside: bool) -> (r: usize)
    requires
        i <= end <= s@.len(),
    ensures
        r == run_end(s@, i as int, end as int, k, inside),
        i <= r <= end,
{
    let mut p = i;
    proof { lemma_run_end(s@, i as int, end as int, k, inside); }
    while p < end && class_has(k, s[p]) == inside
        invariant
            i <= p <= end <= s@.len(),
            run_end(s@, p as int, end as int, k, inside) == run_end(s@, i as int, end as int, k, inside),
        decreases end - p,
    {
        p = p + 1;
    }
    p
}

/// Spans shifted right by `a` positions.
pub open spec fn shift(sp: Seq<Span>, a: int) -> Seq<Span> {
    sp.map_values(|p: Span| ((p.0 + a) as usize, (p.1 + a) as usize))
}

pub proof fn lemma_tiles_shift(sp: Seq<Span>, a: int, b: int, off: int)
    requires
        tiles(sp, a, b),
        0 <= a,
        0 <= off,
        b + off <= usize::MAX,
    ensures
        tiles(shift(sp, off), a + off, b + off),
{
    lemma_tiles_bounds(sp, a, b);
    let sh = shift(sp, off);
    if sp.len() > 0 {
        assert(sh[0] == ((sp[0].0 + off) as usize, (sp[0].1 + off) as usize));
        assert(sh.last() == sh[sp.len() - 1]);
        assert forall|k: int| 0 <= k < sh.len() implies #[trigger] sh[k].0 < sh[k].1 by {
            assert(sp[k].0 < sp[k].1);
        }
        assert forall|k: int| 0 <= k < sh.len() - 1 implies #[trigger] sh[k].1 == sh[k + 1].0 by {
            assert(sp[k].1 == sp[k + 1].0);
        }
    }
}

/// Relies on `str::chars`, collected into a vector: the characters of `s` in
/// order. A vector never holds more than `isize::MAX` bytes.
#[verifier::external_body]
pub fn chars_of(s: &str) -> (r: Vec<char>)
    ensures
        r@ == s@,
        r@.len() * 4 <= isize::MAX,
{
    s.chars().collect()
}

/// Relies on `String::push`: appends one character.
#[verifier::external_body]
pub fn push_char(s: &mut String, c: char)
    ensures
        final(s)@ == old(s)@.push(c),
{
    s.push(c)
}

/// The string made of the characters `cs[a..b]`.
pub fn string_of(cs: &[char], a: usize, b: usize) -> (r: String)
    requires
        a <= b <= cs@.len(),
    ensures
        r@ == cs@.subrange(a as int, b as int),
{
    let mut r = String::new();
    let mut i = a;
    while i < b
        invariant
            a <= i <= b <= cs@.len(),
            r@ == cs@.subrange(a as int, i as int),
        decreases b - i,
    {
        push_char(&mut r, cs[i]);
        assert(cs@.subrange(a as int, i + 1) =~= cs@.subrange(a as int, i as int).push(cs@[i as int]));
        i += 1;
    }
    r
}

/// The strings that the spans `sp` name in `s`.
pub fn words_of(s: &Vec<char>, sp: &Vec<Span>) -> (r: Vec<String>)
    requires
        forall|k: int| 0 <= k < sp@.len() ==> (#[trigger] sp@[k]).0 <= sp@[k].1 <= s@.len(),
    ensures
        views(r@) == pieces(s@, sp@),
{
    let mut r: Vec<String> = Vec::new();
    let mut k: usize = 0;
    while k < sp.len()
        invariant
            k <= sp@.len(),
            forall|k2: int| 0 <= k2 < sp@.len() ==> (#[trigger] sp@[k2]).0 <= sp@[k2].1 <= s@.len(),
            views(r@) == pieces(s@, sp@.subrange(0, k as int)),
        decreases sp@.len() - k,
    {
        let p = sp[k];
        let w = string_of(s.as_slice(), p.0, p.1);
        let ghost before = r@;
        r.push(w);
        proof {
            assert(sp@.subrange(0, k + 1) =~= sp@.subrange(0, k as int).push(p));
            assert(pieces(s@, sp@.subrange(0, k + 1)) =~= pieces(s@, sp@.subrange(0, k as int)).push(
                s@.subrange(p.0 as int, p.1 as int)));
            assert(views(r@) =~= views(before).push(w@));
        }
        k = k + 1;
    }
    assert(sp@.subrange(0, sp@.len() as int) =~= sp@);
    r
}

/// The string of the characters `cs`.
pub fn string_from(cs: &[char]) -> (r: String)
    ensures
        r@ == cs@,
{
    let r = string_of(cs, 0, cs.len());
    assert(cs@.subrange(0, cs@.len() as int) =~= cs@);
    r
}

/// Appends the characters of `lit` to `s`.
pub fn push_str(s: &mut String, lit: &str)
    ensures
        final(s)@ == old(s)@ + lit@,
{
    let cs = chars_of(lit);
    let ghost s0 = s@;
    let mut i: usize = 0;
    while i < cs.len()
        invariant
            i <= cs@.len(),
            cs@ == lit@,
            s@ == s0 + cs@.subrange(0, i as int),
        decreases cs@.len() - i,
    {
        push_char(s, cs[i]);
        assert(cs@.subrange(0, i + 1) =~= cs@.subrange(0, i as int).push(cs@[i as int]));
        i = i + 1;
    }
    assert(cs@.subrange(0, cs@.len() as int) =~= cs@);
}

/// The decimal digits of `n`.
pub open spec fn digits(n: nat) -> Seq<char>
    decreases n,
{
    if n < 10 {
        seq![digit_char(n)]
    } else {
        digits(n / 10).push(digit_char(n % 10))
    }
}

pub open spec fn digit_char(n: nat) -> char {
    if n == 0 { '0' } else if n == 1 { '1' } else if n == 2 { '2' } else if n == 3 { '3' } else if n == 4 { '4' }
    else if n == 5 { '5' } else if n == 6 { '6' } else if n == 7 { '7' } else if n == 8 { '8' } else { '9' }
}

fn digit_char_of(n: usize) -> (r: char)
    requires
        n < 10,
    ensures
        r == digit_char(n as nat),
{
    if n == 0 { '0' } else if n == 1 { '1' } else if n == 2 { '2' } else if n == 3 { '3' } else if n == 4 { '4' }
    else if n == 5 { '5' } else if n == 6 { '6' } else if n == 7 { '7' } else if n == 8 { '8' } else { '9' }
}

/// Appends the decimal digits of `n` to `s`.
pub fn push_digits(s: &mut String, n: usize)
    ensures
        final(s)@ == old(s)@ + digits(n as nat),
    decreases n,
{
    if n >= 10 {
        push_digits(s, n / 10);
    }
    push_char(s, digit_char_of(n % 10));
    proof {
        if n >= 10 {
            assert(old(s)@ + digits(n as nat) =~= old(s)@ + digits((n / 10) as nat) + seq![digit_char((n % 10) as nat)]);
        }
    }
    assert(final(s)@ =~= old(s)@ + digits(n as nat));
}

/// The characters `r[a..b]` as a vector of their own.
pub fn sub_vec_chars(r: &Vec<char>, a: usize, b: usize) -> (v: Vec<char>)
    requires
        a <= b <= r@.len(),
    ensures
        v@ == r@.subrange(a as int, b as int),
{
    let mut v: Vec<char> = Vec::new();
    let mut k = a;
    while k < b
        invariant
            a <= k <= b <= r@.len(),
            v@ == r@.subrange(a as int, k as int),
        decreases b - k,
    {
        v.push(r[k]);
        assert(r@.subrange(a as int, k + 1) =~= r@.subrange(a as int, k as int).push(r@[k as int]));
        k = k + 1;
    }
    v
}

} // verus!
