//! Key paths: dotted sequences of bare or quoted keys, such as `foo."b c" . d`.
use vstd::prelude::*;
use crate::resolve::key_texts;
use crate::text::{chars_of, string_of};

verus! {

/// Whitespace that may stand around a key.
pub open spec fn is_ws(c: char) -> bool {
    c == ' ' || c == '\t'
}

/// A character that may stand in a bare key: `A-Z a-z 0-9 _ -`.
pub open spec fn is_bare_char(c: char) -> bool {
    ('A' <= c && c <= 'Z') || ('a' <= c && c <= 'z') || ('0' <= c && c <= '9') || c == '_'
        || c == '-'
}

/// The character that the escape `\c` stands for in a quoted key.
pub open spec fn unescape(c: char) -> Option<char> {
    if c == '"' {
        Some('"')
    } else if c == '\\' {
        Some('\\')
    } else if c == 'b' {
        Some('\x08')
    } else if c == 't' {
        Some('\t')
    } else if c == 'n' {
        Some('\n')
    } else if c == 'f' {
        Some('\x0c')
    } else if c == 'r' {
        Some('\r')
    } else {
        None
    }
}

/// How many hexadecimal digits follow the escape `\c`: four for `u`, eight for `U`, none for
/// any other character.
pub open spec fn hex_width(c: char) -> int {
    if c == 'u' {
        4
    } else if c == 'U' {
        8
    } else {
        0
    }
}

/// The value of the hexadecimal digit `c`, if it is one.
pub open spec fn hex_digit(c: char) -> Option<int> {
    if '0' <= c && c <= '9' {
        Some(c as int - '0' as int)
    } else if 'a' <= c && c <= 'f' {
        Some(c as int - 'a' as int + 10)
    } else if 'A' <= c && c <= 'F' {
        Some(c as int - 'A' as int + 10)
    } else {
        None
    }
}

/// Every character of `ds` is a hexadecimal digit.
pub open spec fn all_hex(ds: Seq<char>) -> bool {
    forall|i: int| 0 <= i < ds.len() ==> hex_digit(#[trigger] ds[i]) is Some
}

/// The number that the hexadecimal digits `ds` write.
pub open spec fn hex_value(ds: Seq<char>) -> int
    decreases ds.len(),
{
    if ds.len() == 0 {
        0
    } else {
        hex_value(ds.drop_last()) * 16 + hex_digit(ds.last())->0
    }
}

/// `v` is a Unicode scalar value: at most `0x10FFFF`, and no surrogate.
pub open spec fn is_scalar_value(v: int) -> bool {
    0 <= v <= 0x10FFFF && !(0xD800 <= v <= 0xDFFF)
}

/// The character that the escape `\u` or `\U` starting at `i` stands for, when its digits
/// are all there and name a Unicode scalar value.
pub open spec fn scalar_escape(s: Seq<char>, i: int) -> Option<char> {
    let w = hex_width(s[i + 1]);
    let ds = s.subrange(i + 2, i + 2 + w);
    if w > 0 && i + 2 + w <= s.len() && all_hex(ds) && is_scalar_value(hex_value(ds)) {
        Some((hex_value(ds) as u32) as char)
    } else {
        None
    }
}

/// The first position at or after `i` that holds no whitespace.
pub open spec fn skip_ws(s: Seq<char>, i: int) -> int
    decreases s.len() - i,
{
    if 0 <= i < s.len() && is_ws(s[i]) {
        skip_ws(s, i + 1)
    } else {
        i
    }
}

/// The first position at or after `i` that holds no bare-key character.
pub open spec fn bare_end(s: Seq<char>, i: int) -> int
    decreases s.len() - i,
{
    if 0 <= i < s.len() && is_bare_char(s[i]) {
        bare_end(s, i + 1)
    } else {
        i
    }
}

/// The rest of a quoted key whose text starts at `i` (after the opening quote): its content
/// and the position after the closing quote; `None` when the quote is never closed or an
/// escape is malformed.
pub open spec fn quoted_rest(s: Seq<char>, i: int) -> Option<(Seq<char>, int)>
    decreases s.len() - i,
{
    if i < 0 || i >= s.len() {
        None
    } else if s[i] == '"' {
        Some((Seq::<char>::empty(), i + 1))
    } else if s[i] == '\\' {
        if i + 1 < s.len() && unescape(s[i + 1]) is Some {
            match quoted_rest(s, i + 2) {
                Some((t, e)) => Some((seq![unescape(s[i + 1])->0] + t, e)),
                None => None,
            }
        } else if i + 1 < s.len() && scalar_escape(s, i) is Some {
            match quoted_rest(s, i + 2 + hex_width(s[i + 1])) {
                Some((t, e)) => Some((seq![scalar_escape(s, i)->0] + t, e)),
                None => None,
            }
        } else {
            None
        }
    } else {
        match quoted_rest(s, i + 1) {
            Some((t, e)) => Some((seq![s[i]] + t, e)),
            None => None,
        }
    }
}

/// The key that starts at `i`, with the whitespace around it: its text, whether it was
/// quoted, and the position after the whitespace that follows it.
pub open spec fn segment_at(s: Seq<char>, i: int) -> Option<(Seq<char>, bool, int)> {
    let j = skip_ws(s, i);
    if 0 <= j < s.len() && s[j] == '"' {
        match quoted_rest(s, j + 1) {
            Some((t, e)) => Some((t, true, skip_ws(s, e))),
            None => None,
        }
    } else if 0 <= j < s.len() && is_bare_char(s[j]) {
        let e = bare_end(s, j);
        Some((s.subrange(j, e), false, skip_ws(s, e)))
    } else {
        None
    }
}

proof fn lemma_skip_ws_ge(s: Seq<char>, i: int)
    ensures
        skip_ws(s, i) >= i,
        0 <= i <= s.len() ==> skip_ws(s, i) <= s.len(),
    decreases s.len() - i,
{
    if 0 <= i < s.len() && is_ws(s[i]) {
        lemma_skip_ws_ge(s, i + 1);
    }
}

proof fn lemma_bare_end_ge(s: Seq<char>, i: int)
    ensures
        bare_end(s, i) >= i,
        0 <= i <= s.len() ==> bare_end(s, i) <= s.len(),
    decreases s.len() - i,
{
    if 0 <= i < s.len() && is_bare_char(s[i]) {
        lemma_bare_end_ge(s, i + 1);
    }
}

proof fn lemma_quoted_rest_end(s: Seq<char>, i: int)
    ensures
        quoted_rest(s, i) matches Some((t, e)) ==> i < e <= s.len(),
    decreases s.len() - i,
{
    if 0 <= i < s.len() && s[i] != '"' {
        if s[i] == '\\' {
            if i + 1 < s.len() {
                lemma_quoted_rest_end(s, i + 2);
                if scalar_escape(s, i) is Some {
                    lemma_quoted_rest_end(s, i + 2 + hex_width(s[i + 1]));
                }
            }
        } else {
            lemma_quoted_rest_end(s, i + 1);
        }
    }
}

proof fn lemma_segment_end(s: Seq<char>, i: int)
    requires
        0 <= i,
    ensures
        segment_at(s, i) matches Some((t, q, e)) ==> i < e <= s.len(),
{
    let j = skip_ws(s, i);
    lemma_skip_ws_ge(s, i);
    if 0 <= j < s.len() && s[j] == '"' {
        lemma_quoted_rest_end(s, j + 1);
        if let Some((t, e)) = quoted_rest(s, j + 1) {
            lemma_skip_ws_ge(s, e);
        }
    } else if 0 <= j < s.len() && is_bare_char(s[j]) {
        lemma_bare_end_ge(s, j + 1);
        lemma_skip_ws_ge(s, bare_end(s, j));
    }
}

/// The keys of a path whose text starts at `i`, each with whether it was quoted; `None` when
/// the text is no path.
pub open spec fn path_from(s: Seq<char>, i: int) -> Option<Seq<(Seq<char>, bool)>>
    decreases s.len() - i,
    via path_from_decreases
{
    if i < 0 {
        None
    } else {
        match segment_at(s, i) {
            None => None,
            Some((t, q, e)) => if e == s.len() {
                Some(seq![(t, q)])
            } else if e < s.len() && s[e] == '.' {
                match path_from(s, e + 1) {
                    Some(rest) => Some(seq![(t, q)] + rest),
                    None => None,
                }
            } else {
                None
            },
        }
    }
}

#[via_fn]
proof fn path_from_decreases(s: Seq<char>, i: int) {
    if i >= 0 {
        lemma_segment_end(s, i);
    }
}

/// The keys of the path written `s`, or `None` when `s` is no path.
pub open spec fn parse_path(s: Seq<char>) -> Option<Seq<(Seq<char>, bool)>> {
    path_from(s, 0)
}

/// The key names of parsed segments.
pub open spec fn names(p: Seq<(Seq<char>, bool)>) -> Seq<Seq<char>> {
    p.map_values(|x: (Seq<char>, bool)| x.0)
}

/// `k` can be written as a bare key.
pub open spec fn bare_key(k: Seq<char>) -> bool {
    k.len() > 0 && forall|i: int| 0 <= i < k.len() ==> is_bare_char(#[trigger] k[i])
}

/// `k` can be written between quotes with no escape.
pub open spec fn plain_quotable(k: Seq<char>) -> bool {
    forall|i: int| 0 <= i < k.len() ==> #[trigger] k[i] != '"' && k[i] != '\\'
}

/// Each key of `p` can be written as it is marked: quoted, or bare.
pub open spec fn writable(p: Seq<(Seq<char>, bool)>) -> bool {
    forall|i: int|
        0 <= i < p.len() ==> if (#[trigger] p[i]).1 {
            plain_quotable(p[i].0)
        } else {
            bare_key(p[i].0)
        }
}

/// A key as written: between quotes, or bare.
pub open spec fn written(g: (Seq<char>, bool)) -> Seq<char> {
    if g.1 {
        seq!['"'] + g.0 + seq!['"']
    } else {
        g.0
    }
}

/// `n` spaces.
pub open spec fn spaces(n: nat) -> Seq<char> {
    Seq::new(n, |i: int| ' ')
}

/// The keys of `p` written one after the other, each dot with `a` spaces before it and `b`
/// after it.
pub open spec fn path_text(p: Seq<(Seq<char>, bool)>, a: nat, b: nat) -> Seq<char>
    decreases p.len(),
{
    if p.len() == 0 {
        Seq::empty()
    } else if p.len() == 1 {
        written(p[0])
    } else {
        written(p[0]) + spaces(a) + seq!['.'] + spaces(b) + path_text(p.drop_first(), a, b)
    }
}

proof fn lemma_skip_spaces(s: Seq<char>, i: int, w: int)
    requires
        0 <= i,
        0 <= w,
        i + w <= s.len(),
        forall|x: int| i <= x < i + w ==> #[trigger] s[x] == ' ',
        i + w == s.len() || !is_ws(s[i + w]),
    ensures
        skip_ws(s, i) == i + w,
    decreases w,
{
    if w > 0 {
        lemma_skip_spaces(s, i + 1, w - 1);
    }
}

proof fn lemma_bare_run(s: Seq<char>, i: int, w: int)
    requires
        0 <= i,
        0 <= w,
        i + w <= s.len(),
        forall|x: int| i <= x < i + w ==> is_bare_char(#[trigger] s[x]),
        i + w == s.len() || !is_bare_char(s[i + w]),
    ensures
        bare_end(s, i) == i + w,
    decreases w,
{
    if w > 0 {
        lemma_bare_run(s, i + 1, w - 1);
    }
}

proof fn lemma_quoted_plain(s: Seq<char>, i: int, k: Seq<char>)
    requires
        0 <= i,
        i + k.len() < s.len(),
        forall|x: int| 0 <= x < k.len() ==> #[trigger] s[i + x] == k[x],
        plain_quotable(k),
        s[i + k.len()] == '"',
    ensures
        quoted_rest(s, i) == Some((k, i + k.len() + 1)),
    decreases k.len(),
{
    if k.len() == 0 {
        assert(k =~= Seq::<char>::empty());
    } else {
        assert(s[i + 0] == k[0]);
        let t = k.drop_first();
        assert forall|x: int| 0 <= x < t.len() implies #[trigger] s[(i + 1) + x] == t[x] by {
            assert(s[i + (x + 1)] == k[x + 1]);
        }
        assert forall|x: int| 0 <= x < t.len() implies #[trigger] t[x] != '"' && t[x] != '\\' by {
            assert(k[x + 1] != '"');
        }
        lemma_quoted_plain(s, i + 1, t);
        assert(seq![k[0]] + t =~= k);
    }
}

proof fn lemma_text_parses_from(s: Seq<char>, i: int, p: Seq<(Seq<char>, bool)>, a: nat, b: nat, w: nat)
    requires
        p.len() >= 1,
        writable(p),
        0 <= i <= s.len(),
        s.subrange(i, s.len() as int) == spaces(w) + path_text(p, a, b),
    ensures
        path_from(s, i) == Some(p),
    decreases p.len(),
{
    let x = s.subrange(i, s.len() as int);
    assert forall|d: int| 0 <= d < x.len() implies #[trigger] s[i + d] == x[d] by {}
    let g = p[0];
    let wr = written(g);
    let j = i + w;
    let l = wr.len() as int;
    let tail = if p.len() == 1 {
        Seq::<char>::empty()
    } else {
        spaces(a) + seq!['.'] + spaces(b) + path_text(p.drop_first(), a, b)
    };
    assert(path_text(p, a, b) =~= wr + tail);
    assert(x =~= spaces(w) + wr + tail);
    assert(writable(p) ==> (if p[0].1 { plain_quotable(p[0].0) } else { bare_key(p[0].0) }));
    assert forall|d: int| i <= d < j implies #[trigger] s[d] == ' ' by {
        assert(s[i + (d - i)] == x[d - i]);
    }
    assert(s[j] == x[w as int]);
    assert(x[w as int] == wr[0]);
    lemma_skip_spaces(s, i, w as int);
    let e0 = j + l;
    if g.1 {
        assert forall|d: int| 0 <= d < g.0.len() implies #[trigger] s[(j + 1) + d] == g.0[d] by {
            assert(s[i + (w + 1 + d)] == x[(w + 1 + d) as int]);
        }
        assert(s[i + (w + 1 + g.0.len())] == x[(w + 1 + g.0.len()) as int]);
        lemma_quoted_plain(s, j + 1, g.0);
    } else {
        assert forall|d: int| j <= d < e0 implies is_bare_char(#[trigger] s[d]) by {
            assert(s[i + (d - i)] == x[d - i]);
            assert(x[d - i] == g.0[d - j]);
        }
        if e0 < s.len() {
            assert(s[i + (w + l)] == x[(w + l) as int]);
        }
        lemma_bare_run(s, j, l);
        assert(s.subrange(j, e0) =~= g.0) by {
            assert forall|d: int| 0 <= d < l implies #[trigger] s.subrange(j, e0)[d] == g.0[d] by {
                assert(s[i + (w + d)] == x[(w + d) as int]);
            }
        }
    }
    if p.len() == 1 {
        assert(e0 == s.len());
        lemma_skip_spaces(s, e0, 0);
        assert(p =~= seq![g]);
    } else {
        let dot = e0 + a;
        assert forall|d: int| e0 <= d < dot implies #[trigger] s[d] == ' ' by {
            assert(s[i + (d - i)] == x[d - i]);
        }
        assert(s[i + (dot - i)] == x[dot - i]);
        assert(s[dot] == '.');
        lemma_skip_spaces(s, e0, a as int);
        let rest = p.drop_first();
        assert(writable(rest)) by {
            assert forall|k: int| 0 <= k < rest.len() implies (if (#[trigger] rest[k]).1 {
                plain_quotable(rest[k].0)
            } else {
                bare_key(rest[k].0)
            }) by {
                assert(rest[k] == p[k + 1]);
            }
        }
        assert(s.subrange(dot + 1, s.len() as int) =~= spaces(b) + path_text(rest, a, b)) by {
            assert(x.subrange(dot + 1 - i, x.len() as int) =~= spaces(b) + path_text(rest, a, b));
        }
        lemma_text_parses_from(s, dot + 1, rest, a, b, b);
        assert(seq![g] + rest =~= p);
    }
}

/// A path written with bare and quoted keys, with any number of spaces around each dot,
/// parses back to its keys.
pub proof fn lemma_path_text_parses(p: Seq<(Seq<char>, bool)>, a: nat, b: nat)
    requires
        p.len() >= 1,
        writable(p),
    ensures
        parse_path(path_text(p, a, b)) == Some(p),
{
    let s = path_text(p, a, b);
    assert(s.subrange(0, s.len() as int) =~= spaces(0) + s);
    lemma_text_parses_from(s, 0, p, a, b, 0);
}

/// One key of a path.
#[derive(Debug, Clone, PartialEq, Eq)]
pub enum KeySegment {
    /// A key written without quotes.
    Bare(String),
    /// A key written as a quoted string; the content is held unescaped.
    Quoted(String),
}

impl View for KeySegment {
    type V = (Seq<char>, bool);

    /// The key's text and whether it was quoted.
    open spec fn view(&self) -> (Seq<char>, bool) {
        match self {
            KeySegment::Bare(k) => (k@, false),
            KeySegment::Quoted(k) => (k@, true),
        }
    }
}

impl KeySegment {
    /// The key's text.
    pub fn name(&self) -> (r: &String)
        ensures
            r@ == self@.0,
    {
        match self {
            KeySegment::Bare(k) => k,
            KeySegment::Quoted(k) => k,
        }
    }
}

/// A parsed key path: one or more keys, outermost first.
#[derive(Debug, Clone, PartialEq, Eq)]
pub struct KeyPath {
    pub segments: Vec<KeySegment>,
}

impl View for KeyPath {
    type V = Seq<(Seq<char>, bool)>;

    open spec fn view(&self) -> Seq<(Seq<char>, bool)> {
        self.segments@.map_values(|g: KeySegment| g@)
    }
}

/// A text that is no key path; `position` is where the offending part starts.
#[derive(Debug, Clone, Copy, PartialEq, Eq, Structural)]
pub struct PathError {
    pub position: usize,
}

/// `a` put before the result `o`, if there is one.
pub open spec fn prefixed_rest(a: Seq<char>, o: Option<(Seq<char>, int)>) -> Option<(Seq<char>, int)> {
    match o {
        Some((t, e)) => Some((a + t, e)),
        None => None,
    }
}

/// `a` put before the keys `o`, if there are any.
pub open spec fn prefixed_path(
    a: Seq<(Seq<char>, bool)>,
    o: Option<Seq<(Seq<char>, bool)>>,
) -> Option<Seq<(Seq<char>, bool)>> {
    match o {
        Some(r) => Some(a + r),
        None => None,
    }
}

fn ws_char(c: char) -> (r: bool)
    ensures
        r == is_ws(c),
{
    c == ' ' || c == '\t'
}

fn bare_char(c: char) -> (r: bool)
    ensures
        r == is_bare_char(c),
{
    ('A' <= c && c <= 'Z') || ('a' <= c && c <= 'z') || ('0' <= c && c <= '9') || c == '_'
        || c == '-'
}

fn unescape_char(c: char) -> (r: Option<char>)
    ensures
        r == unescape(c),
{
    if c == '"' {
        Some('"')
    } else if c == '\\' {
        Some('\\')
    } else if c == 'b' {
        Some('\x08')
    } else if c == 't' {
        Some('\t')
    } else if c == 'n' {
        Some('\n')
    } else if c == 'f' {
        Some('\x0c')
    } else if c == 'r' {
        Some('\r')
    } else {
        None
    }
}

fn skip_ws_from(cs: &Vec<char>, i: usize) -> (r: usize)
    requires
        i <= cs@.len(),
    ensures
        r == skip_ws(cs@, i as int),
        i <= r <= cs@.len(),
{
    let n = cs.len();
    let mut k = i;
    while k < n && ws_char(cs[k])
        invariant
            n == cs@.len(),
            i <= k <= n,
            skip_ws(cs@, i as int) == skip_ws(cs@, k as int),
        decreases n - k,
    {
        k = k + 1;
    }
    k
}

fn bare_end_from(cs: &Vec<char>, i: usize) -> (r: usize)
    requires
        i <= cs@.len(),
    ensures
        r == bare_end(cs@, i as int),
        i <= r <= cs@.len(),
{
    let n = cs.len();
    let mut k = i;
    while k < n && bare_char(cs[k])
        invariant
            n == cs@.len(),
            i <= k <= n,
            bare_end(cs@, i as int) == bare_end(cs@, k as int),
        decreases n - k,
    {
        k = k + 1;
    }
    k
}

fn copy_range(cs: &Vec<char>, from: usize, to: usize) -> (r: Vec<char>)
    requires
        from <= to <= cs@.len(),
    ensures
        r@ == cs@.subrange(from as int, to as int),
{
    let mut v: Vec<char> = Vec::new();
    let mut k = from;
    while k < to
        invariant
            from <= k <= to <= cs@.len(),
            v@ == cs@.subrange(from as int, k as int),
        decreases to - k,
    {
        v.push(cs[k]);
        proof {
            assert(v@ =~= cs@.subrange(from as int, k + 1));
        }
        k = k + 1;
    }
    v
}

fn hex_width_of(c: char) -> (r: usize)
    ensures
        r == hex_width(c),
{
    if c == 'u' {
        4
    } else if c == 'U' {
        8
    } else {
        0
    }
}

fn hex_digit_of(c: char) -> (r: Option<u32>)
    ensures
        match r {
            Some(d) => hex_digit(c) == Some(d as int),
            None => hex_digit(c) is None,
        },
        r matches Some(d) ==> d < 16,
{
    if '0' <= c && c <= '9' {
        Some((c as u32) - ('0' as u32))
    } else if 'a' <= c && c <= 'f' {
        Some((c as u32) - ('a' as u32) + 10)
    } else if 'A' <= c && c <= 'F' {
        Some((c as u32) - ('A' as u32) + 10)
    } else {
        None
    }
}

/// Relies on `char::from_u32`: the character whose scalar value is `u`, and `None` where `u`
/// is above `0x10FFFF` or a surrogate.
#[verifier::external_body]
fn char_from_scalar(u: u32) -> (r: Option<char>)
    ensures
        is_scalar_value(u as int) ==> r == Some(u as char),
        !is_scalar_value(u as int) ==> r is None,
{
    char::from_u32(u)
}

/// `16` to the power `n`.
pub open spec fn pow16(n: nat) -> int
    decreases n,
{
    if n == 0 {
        1
    } else {
        16 * pow16((n - 1) as nat)
    }
}

/// The escape `\u` or `\U` whose backslash stands at `i`: the character and how many digits it
/// has.
fn scalar_escape_at(cs: &Vec<char>, i: usize) -> (r: Option<(char, usize)>)
    requires
        i + 1 < cs@.len(),
    ensures
        match r {
            Some((c, w)) => scalar_escape(cs@, i as int) == Some(c) && w as int == hex_width(
                cs@[i + 1],
            ),
            None => scalar_escape(cs@, i as int) is None,
        },
{
    let n = cs.len();
    let w = hex_width_of(cs[i + 1]);
    if w == 0 || w > n - (i + 2) {
        return None;
    }
    let start = i + 2;
    let end = start + w;
    let ghost ds = cs@.subrange(start as int, end as int);
    let mut v: u64 = 0;
    let mut k = start;
    assert(pow16(0) == 1);
    proof {
        lemma_pow16_mono(0, 8);
    }
    while k < end
        invariant
            start <= k <= end <= n == cs@.len(),
            w <= 8,
            end == start + w,
            start == i + 2,
            w as int == hex_width(cs@[i + 1]),
            ds == cs@.subrange(start as int, end as int),
            all_hex(cs@.subrange(start as int, k as int)),
            v as int == hex_value(cs@.subrange(start as int, k as int)),
            v < pow16((k - start) as nat),
            pow16((k - start) as nat) <= pow16(8),
        decreases end - k,
    {
        let d = match hex_digit_of(cs[k]) {
            None => {
                proof {
                    assert(ds[k - start] == cs@[k as int]);
                    assert(!all_hex(ds));
                    assert(scalar_escape(cs@, i as int) is None);
                }
                return None;
            },
            Some(d) => d,
        };
        proof {
            let pre = cs@.subrange(start as int, k as int);
            let next = cs@.subrange(start as int, k + 1);
            assert(next.drop_last() =~= pre);
            assert(next.last() == cs@[k as int]);
            assert forall|j: int| 0 <= j < next.len() implies hex_digit(#[trigger] next[j]) is Some by {
                if j < pre.len() {
                    assert(next[j] == pre[j]);
                }
            }
            assert(pow16((k + 1 - start) as nat) == 16 * pow16((k - start) as nat));
            lemma_pow16_mono((k + 1 - start) as nat, 8);
            assert(pow16(8) == 4294967296) by {
                reveal_with_fuel(pow16, 9);
            }
            assert(v * 16 + d < 16 * pow16((k - start) as nat)) by (nonlinear_arith)
                requires
                    v < pow16((k - start) as nat),
                    d < 16,
            ;
        }
        v = v * 16 + d as u64;
        k = k + 1;
    }
    proof {
        assert(pow16(8) == 4294967296) by {
            reveal_with_fuel(pow16, 9);
        }
    }
    match char_from_scalar(v as u32) {
        None => None,
        Some(c) => Some((c, w)),
    }
}

proof fn lemma_pow16_mono(a: nat, b: nat)
    requires
        a <= b,
    ensures
        1 <= pow16(a) <= pow16(b),
    decreases b,
{
    if a < b {
        lemma_pow16_mono(a, (b - 1) as nat);
    } else if b > 0 {
        lemma_pow16_mono((b - 1) as nat, (b - 1) as nat);
    }
}

fn quoted_from(cs: &Vec<char>, i: usize) -> (r: Option<(Vec<char>, usize)>)
    requires
        i <= cs@.len(),
    ensures
        match r {
            Some((t, e)) => quoted_rest(cs@, i as int) == Some((t@, e as int)),
            None => quoted_rest(cs@, i as int) is None,
        },
{
    let n = cs.len();
    let mut acc: Vec<char> = Vec::new();
    let mut k = i;
    proof {
        if let Some((t, e)) = quoted_rest(cs@, i as int) {
            assert(acc@ + t =~= t);
        }
    }
    while k < n
        invariant
            n == cs@.len(),
            i <= k <= n,
            quoted_rest(cs@, i as int) == prefixed_rest(acc@, quoted_rest(cs@, k as int)),
        decreases n - k,
    {
        let c = cs[k];
        if c == '"' {
            proof {
                assert(acc@ + Seq::<char>::empty() =~= acc@);
            }
            return Some((acc, k + 1));
        } else if c == '\\' {
            if k + 1 >= n {
                return None;
            }
            match unescape_char(cs[k + 1]) {
                None => {
                    match scalar_escape_at(cs, k) {
                        None => {
                            return None;
                        },
                        Some((u, w)) => {
                            proof {
                                if let Some((t, e)) = quoted_rest(cs@, k + 2 + w) {
                                    assert(acc@ + (seq![u] + t) =~= acc@.push(u) + t);
                                }
                            }
                            acc.push(u);
                            k = k + 2 + w;
                        },
                    }
                },
                Some(u) => {
                    proof {
                        if let Some((t, e)) = quoted_rest(cs@, k + 2) {
                            assert(acc@ + (seq![u] + t) =~= acc@.push(u) + t);
                        }
                    }
                    acc.push(u);
                    k = k + 2;
                },
            }
        } else {
            proof {
                if let Some((t, e)) = quoted_rest(cs@, k + 1) {
                    assert(acc@ + (seq![c] + t) =~= acc@.push(c) + t);
                }
            }
            acc.push(c);
            k = k + 1;
        }
    }
    None
}

fn segment_from(cs: &Vec<char>, i: usize) -> (r: Option<(KeySegment, usize)>)
    requires
        i <= cs@.len(),
    ensures
        match r {
            Some((g, e)) => segment_at(cs@, i as int) == Some((g@.0, g@.1, e as int)),
            None => segment_at(cs@, i as int) is None,
        },
        r matches Some((g, e)) ==> i < e <= cs@.len(),
{
    proof {
        lemma_segment_end(cs@, i as int);
    }
    let n = cs.len();
    let j = skip_ws_from(cs, i);
    if j < n && cs[j] == '"' {
        match quoted_from(cs, j + 1) {
            None => None,
            Some((t, e)) => {
                proof {
                    lemma_quoted_rest_end(cs@, j + 1);
                }
                let after = skip_ws_from(cs, e);
                Some((KeySegment::Quoted(string_of(&t)), after))
            },
        }
    } else if j < n && bare_char(cs[j]) {
        let e = bare_end_from(cs, j);
        let t = copy_range(cs, j, e);
        let after = skip_ws_from(cs, e);
        Some((KeySegment::Bare(string_of(&t)), after))
    } else {
        None
    }
}

impl KeyPath {
    /// Parses the key path written `raw`.
    pub fn parse(raw: &str) -> (r: Result<KeyPath, PathError>)
        ensures
            match r {
                Ok(p) => parse_path(raw@) == Some(p@),
                Err(e) => parse_path(raw@) is None && e.position <= raw@.len(),
            },
    {
        let cs = chars_of(raw);
        let n = cs.len();
        let mut segs: Vec<KeySegment> = Vec::new();
        let mut i: usize = 0;
        proof {
            if let Some(rest) = path_from(cs@, 0) {
                assert(Seq::<(Seq<char>, bool)>::empty() + rest =~= rest);
            }
            assert(segs@.map_values(|g: KeySegment| g@) =~= Seq::<(Seq<char>, bool)>::empty());
        }
        loop
            invariant
                n == cs@.len(),
                cs@ == raw@,
                i <= n,
                path_from(cs@, 0) == prefixed_path(
                    segs@.map_values(|g: KeySegment| g@),
                    path_from(cs@, i as int),
                ),
            decreases n - i,
        {
            match segment_from(&cs, i) {
                None => {
                    return Err(PathError { position: i });
                },
                Some((g, e)) => {
                    let ghost before = segs@.map_values(|g: KeySegment| g@);
                    let ghost gv = g@;
                    segs.push(g);
                    proof {
                        assert(segs@.map_values(|g: KeySegment| g@) =~= before.push(gv));
                        if let Some(rest) = path_from(cs@, e + 1) {
                            assert(before + (seq![gv] + rest) =~= before.push(gv) + rest);
                        }
                        assert(before + seq![gv] =~= before.push(gv));
                    }
                    if e == n {
                        return Ok(KeyPath { segments: segs });
                    } else if cs[e] == '.' {
                        i = e + 1;
                    } else {
                        return Err(PathError { position: e });
                    }
                },
            }
        }
    }

    /// The key texts of the path, outermost first.
    pub fn keys(&self) -> (r: Vec<String>)
        ensures
            key_texts(r@) == names(self@),
    {
        let mut out: Vec<String> = Vec::new();
        let n = self.segments.len();
        let mut i: usize = 0;
        while i < n
            invariant
                n == self.segments@.len(),
                i <= n,
                out@.len() == i,
                forall|j: int| 0 <= j < i ==> out@[j]@ == self.segments@[j]@.0,
            decreases n - i,
        {
            out.push(self.segments[i].name().clone());
            i = i + 1;
        }
        assert(key_texts(out@) =~= names(self@));
        out
    }
}

} // verus!
