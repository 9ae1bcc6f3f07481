//! Match highlighting: overlays highlight styles onto the spans of a line.
//!
//! `apply` re-segments each line's spans at match boundaries and patches a
//! highlight style onto the sub-spans that fall within a match's `[start,
//! end)` byte range; the current match gets a distinct style. Matches that
//! are out of range, empty, or not on character boundaries are skipped.
//!
//! Lines, spans and styles here hold as plain values what a terminal UI's
//! text types hold: a span is its text and its style, a style its optional
//! colours and its two modifier bit sets.
use vstd::prelude::*;
use vstd::utf8::*;
use crate::search::Match;
use crate::search::lemma_matches_are_occurrences;
use crate::search::lemma_matches_on_char_boundaries;
use crate::search::lines_fit;
use crate::search::spec_find_matches;

verus! {

/// A terminal colour.
#[derive(Debug, Clone, Copy, PartialEq, Eq)]
pub enum Color {
    Reset,
    Black,
    Red,
    Green,
    Yellow,
    Blue,
    Magenta,
    Cyan,
    Gray,
    DarkGray,
    LightRed,
    LightGreen,
    LightYellow,
    LightBlue,
    LightMagenta,
    LightCyan,
    White,
    Rgb(u8, u8, u8),
    Indexed(u8),
}

/// A text style: optional colours and the modifiers it adds and removes.
#[derive(Debug, Clone, Copy, PartialEq, Eq)]
pub struct Style {
    pub fg: Option<Color>,
    pub bg: Option<Color>,
    pub underline_color: Option<Color>,
    pub add_modifier: u16,
    pub sub_modifier: u16,
}

/// Horizontal alignment of a line.
#[derive(Debug, Clone, Copy, PartialEq, Eq)]
pub enum Alignment {
    Left,
    Center,
    Right,
}

/// A piece of text with one style.
#[derive(Debug, PartialEq, Eq)]
pub struct Span {
    pub content: String,
    pub style: Style,
}

/// One line of styled text.
#[derive(Debug, PartialEq, Eq)]
pub struct Line {
    pub spans: Vec<Span>,
    pub style: Style,
    pub alignment: Option<Alignment>,
}

impl View for Span {
    type V = (Seq<u8>, Style);

    /// A span is seen as the UTF-8 bytes of its text and its style.
    open spec fn view(&self) -> (Seq<u8>, Style) {
        (encode_utf8(self.content@), self.style)
    }
}

/// The views of a sequence of spans.
pub open spec fn spans_view(spans: Seq<Span>) -> Seq<(Seq<u8>, Style)> {
    spans.map_values(|s: Span| s@)
}

impl View for Line {
    type V = (Seq<(Seq<u8>, Style)>, Style, Option<Alignment>);

    open spec fn view(&self) -> (Seq<(Seq<u8>, Style)>, Style, Option<Alignment>) {
        (spans_view(self.spans@), self.style, self.alignment)
    }
}

/// `a` if it is set, else `b`.
pub open spec fn or_color(a: Option<Color>, b: Option<Color>) -> Option<Color> {
    if a is Some {
        a
    } else {
        b
    }
}

/// `base` with `other` laid over it: the colours that `other` sets win, and
/// the modifiers that `other` adds or removes are added or removed.
pub open spec fn patched(base: Style, other: Style) -> Style {
    Style {
        fg: or_color(other.fg, base.fg),
        bg: or_color(other.bg, base.bg),
        underline_color: or_color(other.underline_color, base.underline_color),
        add_modifier: (base.add_modifier & !other.sub_modifier) | other.add_modifier,
        sub_modifier: (base.sub_modifier & !other.add_modifier) | other.sub_modifier,
    }
}

/// The style of every highlighted match but the current one: black text on
/// yellow.
pub open spec fn highlight_style() -> Style {
    Style {
        fg: Some(Color::Black),
        bg: Some(Color::Yellow),
        underline_color: None,
        add_modifier: 0,
        sub_modifier: 0,
    }
}

/// The style of the current match: black text on cyan.
pub open spec fn current_highlight_style() -> Style {
    Style {
        fg: Some(Color::Black),
        bg: Some(Color::Cyan),
        underline_color: None,
        add_modifier: 0,
        sub_modifier: 0,
    }
}

impl Style {
    /// Lays `other` over this style.
    pub fn patch(self, other: Style) -> (r: Style)
        ensures
            r == patched(self, other),
    {
        let fg = match other.fg {
            Some(c) => Some(c),
            None => self.fg,
        };
        let bg = match other.bg {
            Some(c) => Some(c),
            None => self.bg,
        };
        let underline_color = match other.underline_color {
            Some(c) => Some(c),
            None => self.underline_color,
        };
        Style {
            fg,
            bg,
            underline_color,
            add_modifier: (self.add_modifier & !other.sub_modifier) | other.add_modifier,
            sub_modifier: (self.sub_modifier & !other.add_modifier) | other.sub_modifier,
        }
    }
}

/// The style applied to every non-current highlighted match.
pub fn highlight() -> (s: Style)
    ensures
        s == highlight_style(),
{
    Style {
        fg: Some(Color::Black),
        bg: Some(Color::Yellow),
        underline_color: None,
        add_modifier: 0,
        sub_modifier: 0,
    }
}

/// The style applied to the current match.
pub fn current_highlight() -> (s: Style)
    ensures
        s == current_highlight_style(),
{
    Style {
        fg: Some(Color::Black),
        bg: Some(Color::Cyan),
        underline_color: None,
        add_modifier: 0,
        sub_modifier: 0,
    }
}

/// The plain text of a line: the bytes of its spans, one after another.
pub open spec fn text_of(spans: Seq<(Seq<u8>, Style)>) -> Seq<u8>
    decreases spans.len(),
{
    if spans.len() == 0 {
        seq![]
    } else {
        text_of(spans.drop_last()) + spans.last().0
    }
}

/// Some interval holds the whole byte range `[lo, hi)`.
pub open spec fn held(lo: int, hi: int, ivs: Seq<(usize, usize, bool)>) -> bool {
    exists|k: int| 0 <= k < ivs.len() && (#[trigger] ivs[k]).0 <= lo && hi <= ivs[k].1
}

/// The interval of the current match holds the whole byte range `[lo, hi)`.
pub open spec fn held_by_current(lo: int, hi: int, ivs: Seq<(usize, usize, bool)>) -> bool {
    exists|k: int| 0 <= k < ivs.len() && (#[trigger] ivs[k]).2 && ivs[k].0 <= lo && hi <= ivs[k].1
}

/// The style of the byte range `[lo, hi)`: the span's own style with the
/// current-match style patched on when the current match holds the range,
/// else with the highlight style patched on when another match holds it,
/// else the span's own style.
pub open spec fn style_for(lo: int, hi: int, base: Style, ivs: Seq<(usize, usize, bool)>) -> Style {
    if held_by_current(lo, hi, ivs) {
        patched(base, current_highlight_style())
    } else if held(lo, hi, ivs) {
        patched(base, highlight_style())
    } else {
        base
    }
}

/// Determines the effective style for the byte range `[lo, hi)` of the
/// plain text: the current-match style when the current match holds it,
/// the highlight style when another match holds it, else the span's own.
fn style_for_offset(
    lo: usize,
    hi: usize,
    base_style: Style,
    intervals: &[(usize, usize, bool)],
) -> (r: Style)
    ensures
        r == style_for(lo as int, hi as int, base_style, intervals@),
{
    let n = intervals.len();
    let mut inside = false;
    let mut i: usize = 0;
    while i < n
        invariant
            n == intervals@.len(),
            i <= n,
            inside <==> held(lo as int, hi as int, intervals@.take(i as int)),
            !held_by_current(lo as int, hi as int, intervals@.take(i as int)),
        decreases n - i,
    {
        let (start, end, is_current) = intervals[i];
        proof {
            let t = intervals@.take(i as int);
            let t1 = intervals@.take(i + 1);
            assert(t1[i as int] == intervals@[i as int]);
            assert forall|k: int| 0 <= k < i implies #[trigger] t1[k] == t[k] by {}
            if held(lo as int, hi as int, t) {
                let k = choose|k: int| 0 <= k < t.len() && (#[trigger] t[k]).0 <= lo && hi <= t[k].1;
                assert(t1[k] == t[k]);
            }
        }
        if lo >= start && hi <= end {
            if is_current {
                assert(intervals@[i as int].2);
                return base_style.patch(current_highlight());
            }
            inside = true;
        }
        i = i + 1;
    }
    assert(intervals@.take(n as int) =~= intervals@);
    if inside {
        base_style.patch(highlight())
    } else {
        base_style
    }
}

/// Encoding a concatenation encodes each part.
proof fn lemma_encode_concat(a: Seq<char>, b: Seq<char>)
    ensures
        encode_utf8(a + b) == encode_utf8(a) + encode_utf8(b),
    decreases a.len(),
{
    if a.len() == 0 {
        assert(a + b =~= b);
        assert(encode_utf8(a) + encode_utf8(b) =~= encode_utf8(b));
    } else {
        assert((a + b)[0] == a[0]);
        assert((a + b).drop_first() =~= a.drop_first() + b);
        lemma_encode_concat(a.drop_first(), b);
        assert(encode_utf8(a + b) =~= encode_utf8(a) + encode_utf8(b));
    }
}

/// The text of two runs of spans is the text of the first, then that of the
/// second.
proof fn lemma_text_concat(a: Seq<(Seq<u8>, Style)>, b: Seq<(Seq<u8>, Style)>)
    ensures
        text_of(a + b) == text_of(a) + text_of(b),
    decreases b.len(),
{
    if b.len() == 0 {
        assert(a + b =~= a);
        assert(text_of(a) + text_of(b) =~= text_of(a));
    } else {
        assert((a + b).drop_last() =~= a + b.drop_last());
        assert((a + b).last() == b.last());
        lemma_text_concat(a, b.drop_last());
        assert(text_of(a + b) =~= text_of(a) + text_of(b));
    }
}

/// The text of the first `j + 1` spans is that of the first `j`, then the
/// bytes of span `j`.
proof fn lemma_text_take_step(v: Seq<(Seq<u8>, Style)>, j: int)
    requires
        0 <= j < v.len(),
    ensures
        text_of(v.take(j + 1)) == text_of(v.take(j)) + v[j].0,
{
    assert(v.take(j + 1).drop_last() =~= v.take(j));
}

/// The text of the first `j` spans starts the text of the line.
proof fn lemma_text_take_prefix(v: Seq<(Seq<u8>, Style)>, j: int)
    requires
        0 <= j <= v.len(),
    ensures
        text_of(v.take(j)).len() <= text_of(v).len(),
        text_of(v) == text_of(v.take(j)) + text_of(v.skip(j)),
{
    assert(v =~= v.take(j) + v.skip(j));
    lemma_text_concat(v.take(j), v.skip(j));
}

/// The text of spans taken from strings is valid UTF-8.
proof fn lemma_text_valid(v: Seq<(Seq<u8>, Style)>)
    requires
        forall|j: int| 0 <= j < v.len() ==> valid_utf8(#[trigger] v[j].0),
    ensures
        valid_utf8(text_of(v)),
    decreases v.len(),
{
    if v.len() > 0 {
        lemma_text_valid(v.drop_last());
        valid_utf8_concat(text_of(v.drop_last()), v.last().0);
    }
}

/// The bytes of every span are valid UTF-8.
proof fn lemma_spans_valid(spans: Seq<Span>)
    ensures
        forall|j: int|
            0 <= j < spans_view(spans).len() ==> valid_utf8(#[trigger] spans_view(spans)[j].0),
        valid_utf8(text_of(spans_view(spans))),
{
    assert forall|j: int| 0 <= j < spans_view(spans).len() implies valid_utf8(
        #[trigger] spans_view(spans)[j].0,
    ) by {
        encode_utf8_valid_utf8(spans[j].content@);
    }
    lemma_text_valid(spans_view(spans));
}

/// The byte length of a line's plain text.
fn line_text_len(line: &Line) -> (n: usize)
    requires
        text_of(line@.0).len() <= usize::MAX,
    ensures
        n == text_of(line@.0).len(),
{
    let ghost v = line@.0;
    let mut total: usize = 0;
    let mut j: usize = 0;
    while j < line.spans.len()
        invariant
            v == line@.0,
            v.len() == line.spans@.len(),
            j <= v.len(),
            text_of(v).len() <= usize::MAX,
            total == text_of(v.take(j as int)).len(),
        decreases v.len() - j,
    {
        proof {
            lemma_text_take_step(v, j as int);
            lemma_text_take_prefix(v, j + 1);
        }
        let len = line.spans[j].content.as_str().len();
        total = total + len;
        j = j + 1;
    }
    assert(v.take(j as int) =~= v);
    total
}

/// The plain text of a line, as one string.
fn plain_text(spans: &Vec<Span>) -> (r: String)
    ensures
        encode_utf8(r@) == text_of(spans_view(spans@)),
{
    let ghost v = spans_view(spans@);
    let mut plain = String::new();
    let mut j: usize = 0;
    while j < spans.len()
        invariant
            v == spans_view(spans@),
            j <= v.len(),
            encode_utf8(plain@) == text_of(v.take(j as int)),
        decreases v.len() - j,
    {
        proof {
            lemma_text_take_step(v, j as int);
            lemma_encode_concat(plain@, spans@[j as int].content@);
        }
        plain.append(spans[j].content.as_str());
        j = j + 1;
    }
    assert(v.take(j as int) =~= v);
    plain
}

/// A match can be highlighted on a line with this text: it is not empty,
/// ends within the text, and starts and ends on character boundaries.
pub open spec fn valid_match(m: Match, text: Seq<u8>) -> bool {
    &&& m.start < m.end
    &&& m.end <= text.len()
    &&& is_char_boundary(text, m.start as int)
    &&& is_char_boundary(text, m.end as int)
}

/// Validates a match against the line's plain-text length and character
/// boundaries: `Some((start, end))` if it is usable, `None` to skip it.
fn validate_match(line: &Line, line_text_len: usize, m: &Match) -> (r: Option<(usize, usize)>)
    requires
        line_text_len == text_of(line@.0).len(),
    ensures
        r == (if valid_match(*m, text_of(line@.0)) {
            Some((m.start, m.end))
        } else {
            None
        }),
{
    if m.start > m.end || m.end > line_text_len {
        return None;
    }
    if m.start == m.end {
        return None;
    }
    let plain = plain_text(&line.spans);
    if !plain.as_str().is_char_boundary(m.start) || !plain.as_str().is_char_boundary(m.end) {
        return None;
    }
    Some((m.start, m.end))
}

/// `x` is the start or the end of one of the intervals.
pub open spec fn is_endpoint(ivs: Seq<(usize, usize, bool)>, x: int) -> bool {
    exists|k: int| 0 <= k < ivs.len() && (ivs[k].0 == x || ivs[k].1 == x)
}

/// The interval endpoints `x` with `from <= x < hi`, in increasing order.
pub open spec fn cuts_from(ivs: Seq<(usize, usize, bool)>, from: int, hi: int) -> Seq<int>
    decreases hi - from,
{
    if from >= hi {
        seq![]
    } else if is_endpoint(ivs, from) {
        seq![from] + cuts_from(ivs, from + 1, hi)
    } else {
        cuts_from(ivs, from + 1, hi)
    }
}

/// Where the span covering `[lo, hi)` of the plain text is cut: at its two
/// ends and at every interval endpoint strictly inside it.
pub open spec fn piece_points(ivs: Seq<(usize, usize, bool)>, lo: int, hi: int) -> Seq<int> {
    seq![lo] + cuts_from(ivs, lo + 1, hi) + seq![hi]
}

/// The sub-spans of one span that starts at byte `lo` of the plain text: one
/// between each two neighbouring cut points, with its bytes and its style.
pub open spec fn span_pieces(span: (Seq<u8>, Style), lo: int, ivs: Seq<(usize, usize, bool)>) -> Seq<
    (Seq<u8>, Style),
> {
    let pts = piece_points(ivs, lo, lo + span.0.len());
    Seq::new(
        (pts.len() - 1) as nat,
        |k: int|
            (
                span.0.subrange(pts[k] - lo, pts[k + 1] - lo),
                style_for(pts[k], pts[k + 1], span.1, ivs),
            ),
    )
}

/// The spans of a line cut at the interval endpoints, with the highlight
/// styles patched in.
pub open spec fn resegmented(spans: Seq<(Seq<u8>, Style)>, ivs: Seq<(usize, usize, bool)>) -> Seq<
    (Seq<u8>, Style),
>
    decreases spans.len(),
{
    if spans.len() == 0 {
        seq![]
    } else {
        resegmented(spans.drop_last(), ivs) + span_pieces(
            spans.last(),
            text_of(spans.drop_last()).len() as int,
            ivs,
        )
    }
}

/// The values of a sequence of `usize`s as integers.
pub open spec fn ints(s: Seq<usize>) -> Seq<int> {
    s.map_values(|u: usize| u as int)
}

/// Each value is smaller than the next.
pub open spec fn strictly_increasing(s: Seq<usize>) -> bool {
    forall|i: int, j: int| 0 <= i < j < s.len() ==> s[i] < s[j]
}

/// Inserts `x` into a strictly increasing sequence unless it is already there.
#[verifier::spinoff_prover]
fn insert_sorted(v: &mut Vec<usize>, x: usize)
    requires
        strictly_increasing(old(v)@),
    ensures
        strictly_increasing(final(v)@),
        forall|y: usize| final(v)@.contains(y) <==> (old(v)@.contains(y) || y == x),
{
    let mut i: usize = 0;
    while i < v.len() && v[i] < x
        invariant
            i <= v@.len(),
            v@ == old(v)@,
            forall|j: int| 0 <= j < i ==> v@[j] < x,
        decreases v@.len() - i,
    {
        i = i + 1;
    }
    if i < v.len() && v[i] == x {
        return;
    }
    let ghost before = v@;
    v.insert(i, x);
    proof {
        assert forall|a: int, b: int| 0 <= a < b < v@.len() implies v@[a] < v@[b] by {
            if a < i as int {
                if b < i as int {
                } else if b == i as int {
                } else {
                    assert(v@[b] == before[b - 1]);
                }
            } else if a == i as int {
                assert(v@[b] == before[b - 1]);
                assert(before[i as int] > x);
            } else {
                assert(v@[a] == before[a - 1]);
                assert(v@[b] == before[b - 1]);
            }
        }
        assert forall|y: usize| #[trigger] v@.contains(y) implies (before.contains(y) || y == x) by {
            let k = choose|k: int| 0 <= k < v@.len() && v@[k] == y;
            if k < i as int {
                assert(before[k] == y);
            } else if k > i as int {
                assert(before[k - 1] == y);
            }
        }
        assert forall|y: usize| #[trigger] before.contains(y) implies v@.contains(y) by {
            let k = choose|k: int| 0 <= k < before.len() && before[k] == y;
            if k < i as int {
                assert(v@[k] == y);
            } else {
                assert(v@[k + 1] == y);
            }
        }
        assert(v@[i as int] == x);
        assert(v@.contains(x));
    }
}

/// The endpoints of all intervals, each once, in increasing order.
fn collect_boundaries(intervals: &[(usize, usize, bool)]) -> (b: Vec<usize>)
    ensures
        strictly_increasing(b@),
        forall|i: int| 0 <= i < b@.len() ==> is_endpoint(intervals@, #[trigger] b@[i] as int),
        forall|k: int|
            0 <= k < intervals@.len() ==> b@.contains((#[trigger] intervals@[k]).0) && b@.contains(
                intervals@[k].1,
            ),
{
    let mut b: Vec<usize> = Vec::new();
    let mut k: usize = 0;
    while k < intervals.len()
        invariant
            k <= intervals@.len(),
            strictly_increasing(b@),
            forall|i: int| 0 <= i < b@.len() ==> is_endpoint(intervals@, #[trigger] b@[i] as int),
            forall|t: int|
                0 <= t < k ==> b@.contains((#[trigger] intervals@[t]).0) && b@.contains(
                    intervals@[t].1,
                ),
        decreases intervals@.len() - k,
    {
        let (s, e, _) = intervals[k];
        let ghost b0 = b@;
        insert_sorted(&mut b, s);
        insert_sorted(&mut b, e);
        proof {
            assert forall|i: int| 0 <= i < b@.len() implies is_endpoint(
                intervals@,
                #[trigger] b@[i] as int,
            ) by {
                let y = b@[i];
                assert(b@.contains(y));
                if b0.contains(y) {
                    let j = choose|j: int| 0 <= j < b0.len() && b0[j] == y;
                    assert(is_endpoint(intervals@, b0[j] as int));
                } else {
                    assert(intervals@[k as int].0 == y || intervals@[k as int].1 == y);
                }
            }
            assert forall|t: int| 0 <= t < k + 1 implies b@.contains(
                (#[trigger] intervals@[t]).0,
            ) && b@.contains(intervals@[t].1) by {
                if t < k {
                    assert(b0.contains(intervals@[t].0));
                    assert(b0.contains(intervals@[t].1));
                }
            }
        }
        k = k + 1;
    }
    b
}

/// The members of a strictly increasing sequence that lie strictly between
/// `lo` and `hi`.
fn cuts_within(b: &Vec<usize>, lo: usize, hi: usize) -> (c: Vec<usize>)
    requires
        strictly_increasing(b@),
    ensures
        strictly_increasing(c@),
        forall|i: int| 0 <= i < c@.len() ==> lo < #[trigger] c@[i] < hi && b@.contains(c@[i]),
        forall|j: int| 0 <= j < b@.len() && lo < #[trigger] b@[j] < hi ==> c@.contains(b@[j]),
{
    let mut c: Vec<usize> = Vec::new();
    let mut j: usize = 0;
    while j < b.len()
        invariant
            j <= b@.len(),
            strictly_increasing(b@),
            strictly_increasing(c@),
            forall|i: int| 0 <= i < c@.len() ==> lo < #[trigger] c@[i] < hi && b@.contains(c@[i]),
            forall|i: int| 0 <= i < c@.len() ==> exists|t: int| 0 <= t < j && b@[t] == #[trigger] c@[i],
            forall|t: int| 0 <= t < j && lo < #[trigger] b@[t] < hi ==> c@.contains(b@[t]),
        decreases b@.len() - j,
    {
        let x = b[j];
        if lo < x && x < hi {
            let ghost c0 = c@;
            c.push(x);
            proof {
                assert forall|p: int, q: int| 0 <= p < q < c@.len() implies c@[p] < c@[q] by {
                    if q == c0.len() {
                        let t = choose|t: int| 0 <= t < j && b@[t] == c0[p];
                        assert(b@[t] < b@[j as int]);
                    }
                }
                assert forall|i: int| 0 <= i < c@.len() implies exists|t: int|
                    0 <= t < j + 1 && b@[t] == #[trigger] c@[i] by {
                    if i < c0.len() {
                        let t = choose|t: int| 0 <= t < j && b@[t] == c0[i];
                        assert(b@[t] == c@[i]);
                    } else {
                        assert(b@[j as int] == c@[i]);
                    }
                }
                assert forall|t: int| 0 <= t < j + 1 && lo < #[trigger] b@[t] < hi implies c@.contains(
                    b@[t],
                ) by {
                    if t < j {
                        let i = choose|i: int| 0 <= i < c0.len() && c0[i] == b@[t];
                        assert(c@[i] == b@[t]);
                    } else {
                        assert(c@[c0.len() as int] == b@[t]);
                    }
                }
            }
        }
        j = j + 1;
    }
    c
}

/// A strictly increasing run of interval endpoints that holds every endpoint
/// in `[from, hi)` and nothing else is the enumeration `cuts_from`.
proof fn lemma_cuts_unique(c: Seq<usize>, ivs: Seq<(usize, usize, bool)>, from: int, hi: int)
    requires
        0 <= from,
        strictly_increasing(c),
        forall|i: int| 0 <= i < c.len() ==> from <= #[trigger] c[i] < hi && is_endpoint(ivs, c[i] as int),
        forall|y: int| from <= y < hi && is_endpoint(ivs, y) ==> c.contains(y as usize),
    ensures
        ints(c) == cuts_from(ivs, from, hi),
    decreases hi - from,
{
    if from >= hi {
        if c.len() > 0 {
            assert(from <= c[0] < hi);
        }
        assert(ints(c) =~= seq![]);
    } else if is_endpoint(ivs, from) {
        assert(c.contains(from as usize));
        let k = choose|k: int| 0 <= k < c.len() && c[k] == from as usize;
        assert(c[0] == from) by {
            if k > 0 {
                assert(c[0] < c[k]);
            }
        }
        let rest = c.drop_first();
        assert forall|y: int| from + 1 <= y < hi && is_endpoint(ivs, y) implies rest.contains(
            y as usize,
        ) by {
            assert(c.contains(y as usize));
            let t = choose|t: int| 0 <= t < c.len() && c[t] == y as usize;
            assert(t > 0);
            assert(rest[t - 1] == y);
        }
        assert forall|i: int| 0 <= i < rest.len() implies from + 1 <= #[trigger] rest[i] < hi
            && is_endpoint(ivs, rest[i] as int) by {
            assert(rest[i] == c[i + 1]);
            assert(c[0] < c[i + 1]);
        }
        lemma_cuts_unique(rest, ivs, from + 1, hi);
        assert(ints(c) =~= seq![from] + ints(rest));
    } else {
        assert forall|i: int| 0 <= i < c.len() implies from + 1 <= #[trigger] c[i] < hi
            && is_endpoint(ivs, c[i] as int) by {
            if c[i] == from {
            }
        }
        lemma_cuts_unique(c, ivs, from + 1, hi);
    }
}

/// A character boundary of the plain text that falls within one span is a
/// character boundary of that span.
proof fn lemma_boundary_in_span(all: Seq<u8>, pre: Seq<u8>, sb: Seq<u8>, c: int)
    requires
        valid_utf8(all),
        valid_utf8(sb),
        pre.len() + sb.len() <= all.len(),
        forall|x: int| 0 <= x < sb.len() ==> all[pre.len() + x] == #[trigger] sb[x],
        pre.len() <= c <= pre.len() + sb.len(),
        is_char_boundary(all, c),
    ensures
        is_char_boundary(sb, c - pre.len()),
{
    let x = c - pre.len();
    if x == 0 {
        is_char_boundary_start_end_of_seq(sb);
    } else if x == sb.len() {
        is_char_boundary_start_end_of_seq(sb);
    } else {
        is_char_boundary_iff_not_is_continuation_byte(all, c);
        assert(all[pre.len() + x] == sb[x]);
        is_char_boundary_iff_not_is_continuation_byte(sb, x);
    }
}

/// The bytes `[a, b)` of a string, as a new string.
fn substring(s: &str, a: usize, b: usize) -> (r: String)
    requires
        a <= b <= encode_utf8(s@).len(),
        is_char_boundary(encode_utf8(s@), a as int),
        is_char_boundary(encode_utf8(s@), b as int),
    ensures
        encode_utf8(r@) == encode_utf8(s@).subrange(a as int, b as int),
{
    let ghost sb = encode_utf8(s@);
    let (_, rest) = s.split_at(a);
    proof {
        encode_utf8_valid_utf8(s@);
        encode_utf8_valid_utf8(rest@);
        let rb = encode_utf8(rest@);
        assert(rb == sb.subrange(a as int, sb.len() as int));
        lemma_boundary_in_span(sb, sb.subrange(0, a as int), rb, b as int);
    }
    let (mid, _) = rest.split_at(b - a);
    let r = mid.to_owned();
    assert(encode_utf8(mid@) =~= sb.subrange(a as int, b as int));
    r
}

/// Pushing a span adds its view.
proof fn lemma_spans_view_push(spans: Seq<Span>, s: Span)
    ensures
        spans_view(spans.push(s)) == spans_view(spans).push(s@),
{
    assert(spans_view(spans.push(s)) =~= spans_view(spans).push(s@));
}

/// The members of the sorted endpoints that lie strictly inside `(lo, hi)`
/// are the enumeration `cuts_from`.
proof fn lemma_cuts_match(
    b: Seq<usize>,
    c: Seq<usize>,
    ivs: Seq<(usize, usize, bool)>,
    lo: int,
    hi: int,
)
    requires
        0 <= lo,
        strictly_increasing(c),
        forall|i: int| 0 <= i < b.len() ==> is_endpoint(ivs, #[trigger] b[i] as int),
        forall|k: int| 0 <= k < ivs.len() ==> b.contains((#[trigger] ivs[k]).0) && b.contains(ivs[k].1),
        forall|i: int| 0 <= i < c.len() ==> lo < #[trigger] c[i] < hi && b.contains(c[i]),
        forall|j: int| 0 <= j < b.len() && lo < #[trigger] b[j] < hi ==> c.contains(b[j]),
    ensures
        ints(c) == cuts_from(ivs, lo + 1, hi),
        forall|i: int| 0 <= i < c.len() ==> is_endpoint(ivs, #[trigger] c[i] as int),
{
    assert forall|y: int| lo + 1 <= y < hi && is_endpoint(ivs, y) implies c.contains(y as usize) by {
        let k = choose|k: int| 0 <= k < ivs.len() && (ivs[k].0 == y || ivs[k].1 == y);
        assert(b.contains(ivs[k].0));
        assert(b.contains(ivs[k].1));
        let t = choose|t: int| 0 <= t < b.len() && b[t] == y as usize;
        assert(lo < b[t] < hi);
    }
    assert forall|i: int| 0 <= i < c.len() implies lo + 1 <= #[trigger] c[i] < hi && is_endpoint(
        ivs,
        c[i] as int,
    ) by {
        let t = choose|t: int| 0 <= t < b.len() && b[t] == c[i];
        assert(is_endpoint(ivs, b[t] as int));
    }
    lemma_cuts_unique(c, ivs, lo + 1, hi);
}

/// The cut points of one span lie within it, in order, and each is a
/// character boundary of the span.
proof fn lemma_piece_points(
    all: Seq<u8>,
    pre: Seq<u8>,
    sb: Seq<u8>,
    ivs: Seq<(usize, usize, bool)>,
    c: Seq<usize>,
)
    requires
        valid_utf8(all),
        valid_utf8(sb),
        pre.len() + sb.len() <= all.len(),
        forall|x: int| 0 <= x < sb.len() ==> all[pre.len() + x] == #[trigger] sb[x],
        forall|k: int|
            0 <= k < ivs.len() ==> is_char_boundary(all, (#[trigger] ivs[k]).0 as int)
                && is_char_boundary(all, ivs[k].1 as int),
        strictly_increasing(c),
        ints(c) == cuts_from(ivs, (pre.len() + 1) as int, (pre.len() + sb.len()) as int),
        forall|i: int| 0 <= i < c.len() ==> pre.len() < #[trigger] c[i] < pre.len() + sb.len(),
        forall|i: int| 0 <= i < c.len() ==> is_endpoint(ivs, #[trigger] c[i] as int),
    ensures
        ({
            let lo = pre.len() as int;
            let pts = piece_points(ivs, lo, lo + sb.len());
            &&& pts.len() == c.len() + 2
            &&& forall|t: int|
                0 <= t < pts.len() ==> lo <= #[trigger] pts[t] <= lo + sb.len() && is_char_boundary(
                    sb,
                    pts[t] - lo,
                )
            &&& forall|t: int| 0 <= t < pts.len() - 1 ==> #[trigger] pts[t] <= pts[t + 1]
        }),
{
    let lo = pre.len() as int;
    let hi = lo + sb.len();
    let pts = piece_points(ivs, lo, hi);
    assert(pts =~= seq![lo] + ints(c) + seq![hi]);
    assert forall|t: int| 0 <= t < pts.len() implies lo <= #[trigger] pts[t] <= hi
        && is_char_boundary(sb, pts[t] - lo) by {
        if t == 0 || t == pts.len() - 1 {
            is_char_boundary_start_end_of_seq(sb);
        } else {
            assert(pts[t] == c[t - 1]);
            let e = pts[t];
            assert(is_endpoint(ivs, c[t - 1] as int));
            let k = choose|k: int| 0 <= k < ivs.len() && (ivs[k].0 == e || ivs[k].1 == e);
            assert(is_char_boundary(all, ivs[k].0 as int));
            lemma_boundary_in_span(all, pre, sb, e);
        }
    }
    assert forall|t: int| 0 <= t < pts.len() - 1 implies #[trigger] pts[t] <= pts[t + 1] by {
        if 0 < t && t + 1 < pts.len() - 1 {
            assert(c[t - 1] < c[t]);
        }
    }
}

/// Appends the sub-spans of `span`, which starts at byte `span_lo` of the
/// plain text, cut at `cuts`.
#[verifier::loop_isolation(false)]
fn push_pieces(
    span: &Span,
    span_lo: usize,
    cuts: &Vec<usize>,
    intervals: &[(usize, usize, bool)],
    result: &mut Vec<Span>,
)
    requires
        span_lo + encode_utf8(span.content@).len() <= usize::MAX,
        ({
            let lo = span_lo as int;
            let sb = encode_utf8(span.content@);
            let pts = piece_points(intervals@, lo, lo + sb.len());
            &&& ints(cuts@) == cuts_from(intervals@, lo + 1, lo + sb.len())
            &&& pts.len() == cuts@.len() + 2
            &&& forall|t: int|
                0 <= t < pts.len() ==> lo <= #[trigger] pts[t] <= lo + sb.len() && is_char_boundary(
                    sb,
                    pts[t] - lo,
                )
            &&& forall|t: int| 0 <= t < pts.len() - 1 ==> #[trigger] pts[t] <= pts[t + 1]
        }),
    ensures
        spans_view(final(result)@) == spans_view(old(result)@) + span_pieces(
            span@,
            span_lo as int,
            intervals@,
        ),
{
    let text = span.content.as_str();
    let span_len = text.len();
    let span_hi = span_lo + span_len;
    let ghost sb = encode_utf8(span.content@);
    let ghost ivs = intervals@;
    let ghost pts = piece_points(ivs, span_lo as int, span_hi as int);
    let ghost before = spans_view(result@);
    let ghost pieces = span_pieces(span@, span_lo as int, ivs);
    assert(pts =~= seq![span_lo as int] + ints(cuts@) + seq![span_hi as int]);
    if cuts.len() == 0 {
        let style = style_for_offset(span_lo, span_hi, span.style, intervals);
        let piece = Span { content: span.content.clone(), style };
        proof {
            lemma_spans_view_push(result@, piece);
            assert(sb.subrange(0, span_hi - span_lo) =~= sb);
            assert(seq![piece@] =~= pieces);
        }
        result.push(piece);
    } else {
        let mut pos = span_lo;
        let mut k: usize = 0;
        while k < cuts.len()
            invariant
                k <= cuts@.len(),
                pos == pts[k as int],
                spans_view(result@) == before + pieces.take(k as int),
            decreases cuts@.len() - k,
        {
            let cut = cuts[k];
            assert(pts[k + 1] == cut);
            assert(pts[k as int] <= pts[k + 1]);
            let sub = substring(text, pos - span_lo, cut - span_lo);
            let style = style_for_offset(pos, cut, span.style, intervals);
            let piece = Span { content: sub, style };
            proof {
                lemma_spans_view_push(result@, piece);
                assert(pieces.take(k as int).push(piece@) =~= pieces.take(k + 1));
            }
            result.push(piece);
            pos = cut;
            k = k + 1;
        }
        assert(pts[k + 1] == span_hi);
        assert(pts[k as int] <= pts[k + 1]);
        let sub = substring(text, pos - span_lo, span_hi - span_lo);
        let style = style_for_offset(pos, span_hi, span.style, intervals);
        let piece = Span { content: sub, style };
        proof {
            lemma_spans_view_push(result@, piece);
            assert(pieces.take(k as int).push(piece@) =~= pieces);
        }
        result.push(piece);
    }
}

/// Splits `spans` at the endpoints of `intervals` and returns the sub-spans
/// with the highlight styles patched in. Every endpoint must be a character
/// boundary of the plain text.
fn resegment(spans: &[Span], intervals: &[(usize, usize, bool)]) -> (r: Vec<Span>)
    requires
        text_of(spans_view(spans@)).len() <= usize::MAX,
        forall|k: int|
            0 <= k < intervals@.len() ==> is_char_boundary(
                text_of(spans_view(spans@)),
                (#[trigger] intervals@[k]).0 as int,
            ) && is_char_boundary(text_of(spans_view(spans@)), intervals@[k].1 as int),
    ensures
        spans_view(r@) == resegmented(spans_view(spans@), intervals@),
{
    let ghost v = spans_view(spans@);
    let ghost all = text_of(v);
    let ghost ivs = intervals@;
    proof {
        lemma_spans_valid(spans@);
    }
    let boundaries = collect_boundaries(intervals);
    let mut result: Vec<Span> = Vec::new();
    let mut byte_cursor: usize = 0;
    let mut j: usize = 0;
    while j < spans.len()
        invariant
            v == spans_view(spans@),
            all == text_of(v),
            ivs == intervals@,
            all.len() <= usize::MAX,
            valid_utf8(all),
            forall|jj: int| 0 <= jj < v.len() ==> valid_utf8(#[trigger] v[jj].0),
            forall|k: int|
                0 <= k < ivs.len() ==> is_char_boundary(all, (#[trigger] ivs[k]).0 as int)
                    && is_char_boundary(all, ivs[k].1 as int),
            strictly_increasing(boundaries@),
            forall|i: int| 0 <= i < boundaries@.len() ==> is_endpoint(ivs, #[trigger] boundaries@[i] as int),
            forall|k: int|
                0 <= k < ivs.len() ==> boundaries@.contains((#[trigger] ivs[k]).0)
                    && boundaries@.contains(ivs[k].1),
            j <= v.len(),
            byte_cursor == text_of(v.take(j as int)).len(),
            spans_view(result@) == resegmented(v.take(j as int), ivs),
        decreases v.len() - j,
    {
        let span = &spans[j];
        let span_len = span.content.as_str().len();
        let ghost pre = text_of(v.take(j as int));
        let ghost sb = v[j as int].0;
        proof {
            lemma_text_take_step(v, j as int);
            lemma_text_take_prefix(v, j + 1);
            assert(sb == encode_utf8(span.content@));
            assert forall|x: int| 0 <= x < sb.len() implies all[pre.len() + x] == #[trigger] sb[x] by {
                assert(text_of(v.take(j + 1))[pre.len() + x] == sb[x]);
            }
        }
        let span_lo = byte_cursor;
        let span_hi = byte_cursor + span_len;
        let cuts = cuts_within(&boundaries, span_lo, span_hi);
        proof {
            lemma_cuts_match(boundaries@, cuts@, ivs, span_lo as int, span_hi as int);
            lemma_piece_points(all, pre, sb, ivs, cuts@);
        }
        push_pieces(span, span_lo, &cuts, intervals, &mut result);
        proof {
            assert(v.take(j + 1).drop_last() =~= v.take(j as int));
            assert(v.take(j + 1).last() == v[j as int]);
        }
        byte_cursor = span_hi;
        j = j + 1;
    }
    assert(v.take(j as int) =~= v);
    result
}

/// The highlight intervals of line number `idx`: in the order of `ms[..upto]`,
/// each match on that line that can be highlighted, flagged when it is the
/// current one.
pub open spec fn line_intervals(
    ms: Seq<Match>,
    idx: int,
    current: int,
    text: Seq<u8>,
    upto: int,
) -> Seq<(usize, usize, bool)>
    decreases upto,
{
    if upto <= 0 {
        seq![]
    } else {
        let m = ms[upto - 1];
        line_intervals(ms, idx, current, text, upto - 1) + if m.line == idx && valid_match(m, text) {
            seq![(m.start, m.end, upto - 1 == current)]
        } else {
            seq![]
        }
    }
}

/// Line number `idx` after highlighting: unchanged when no match can be
/// highlighted on it, else its spans cut at the match boundaries with the
/// highlight styles patched in; its own style and alignment are kept.
pub open spec fn highlighted_line(
    line: (Seq<(Seq<u8>, Style)>, Style, Option<Alignment>),
    idx: int,
    ms: Seq<Match>,
    current: int,
) -> (Seq<(Seq<u8>, Style)>, Style, Option<Alignment>) {
    let ivs = line_intervals(ms, idx, current, text_of(line.0), ms.len() as int);
    if ivs.len() == 0 {
        line
    } else {
        (resegmented(line.0, ivs), line.1, line.2)
    }
}

/// Every interval of a line is a usable match: non-empty, within the text,
/// on character boundaries.
proof fn lemma_line_intervals_valid(
    ms: Seq<Match>,
    idx: int,
    current: int,
    text: Seq<u8>,
    upto: int,
)
    requires
        0 <= upto <= ms.len(),
    ensures
        ({
            let ivs = line_intervals(ms, idx, current, text, upto);
            forall|k: int|
                0 <= k < ivs.len() ==> {
                    &&& (#[trigger] ivs[k]).0 < ivs[k].1 <= text.len()
                    &&& is_char_boundary(text, ivs[k].0 as int)
                    &&& is_char_boundary(text, ivs[k].1 as int)
                }
        }),
    decreases upto,
{
    if upto > 0 {
        lemma_line_intervals_valid(ms, idx, current, text, upto - 1);
        let prev = line_intervals(ms, idx, current, text, upto - 1);
        let ivs = line_intervals(ms, idx, current, text, upto);
        assert forall|k: int| 0 <= k < ivs.len() implies {
            &&& (#[trigger] ivs[k]).0 < ivs[k].1 <= text.len()
            &&& is_char_boundary(text, ivs[k].0 as int)
            &&& is_char_boundary(text, ivs[k].1 as int)
        } by {
            if k < prev.len() {
                assert(ivs[k] == prev[k]);
            }
        }
    }
}

/// A line without any match on it has no intervals.
proof fn lemma_no_line_match(ms: Seq<Match>, idx: int, current: int, text: Seq<u8>, upto: int)
    requires
        0 <= upto <= ms.len(),
        forall|t: int| 0 <= t < upto ==> (#[trigger] ms[t]).line != idx,
    ensures
        line_intervals(ms, idx, current, text, upto).len() == 0,
    decreases upto,
{
    if upto > 0 {
        lemma_no_line_match(ms, idx, current, text, upto - 1);
    }
}

/// A copy of a line.
fn clone_line(line: &Line) -> (r: Line)
    ensures
        r@ == line@,
{
    let mut spans: Vec<Span> = Vec::new();
    let mut j: usize = 0;
    while j < line.spans.len()
        invariant
            j <= line.spans@.len(),
            spans_view(spans@) == spans_view(line.spans@).take(j as int),
        decreases line.spans@.len() - j,
    {
        let span = &line.spans[j];
        let copy = Span { content: span.content.clone(), style: span.style };
        proof {
            lemma_spans_view_push(spans@, copy);
            assert(spans_view(line.spans@).take(j as int).push(copy@) =~= spans_view(
                line.spans@,
            ).take(j + 1));
        }
        spans.push(copy);
        j = j + 1;
    }
    assert(spans_view(line.spans@).take(j as int) =~= spans_view(line.spans@));
    Line { spans, style: line.style, alignment: line.alignment }
}

/// The highlighted form of line number `line_idx`.
fn apply_line(line: &Line, line_idx: usize, matches: &[Match], current: usize) -> (r: Line)
    requires
        text_of(line@.0).len() <= usize::MAX,
    ensures
        r@ == highlighted_line(line@, line_idx as int, matches@, current as int),
{
    let ghost text = text_of(line@.0);
    let ghost ms = matches@;
    let mut any = false;
    let mut k: usize = 0;
    while k < matches.len()
        invariant
            k <= ms.len(),
            ms == matches@,
            !any ==> forall|t: int| 0 <= t < k ==> (#[trigger] ms[t]).line != line_idx,
        decreases ms.len() - k,
    {
        if matches[k].line == line_idx {
            any = true;
        }
        k = k + 1;
    }
    if !any {
        proof {
            lemma_no_line_match(ms, line_idx as int, current as int, text, ms.len() as int);
        }
        return clone_line(line);
    }
    let line_text_len = line_text_len(line);
    let mut validated: Vec<(usize, usize, bool)> = Vec::new();
    let mut k: usize = 0;
    while k < matches.len()
        invariant
            k <= ms.len(),
            ms == matches@,
            line_text_len == text.len(),
            text == text_of(line@.0),
            validated@ == line_intervals(ms, line_idx as int, current as int, text, k as int),
        decreases ms.len() - k,
    {
        let m = &matches[k];
        if m.line == line_idx {
            match validate_match(line, line_text_len, m) {
                Some((s, e)) => {
                    validated.push((s, e, k == current));
                },
                None => {},
            }
        }
        assert(line_intervals(ms, line_idx as int, current as int, text, k + 1) =~= validated@);
        k = k + 1;
    }
    if validated.len() == 0 {
        return clone_line(line);
    }
    proof {
        lemma_line_intervals_valid(ms, line_idx as int, current as int, text, ms.len() as int);
    }
    let spans = resegment(line.spans.as_slice(), validated.as_slice());
    Line { spans, style: line.style, alignment: line.alignment }
}

/// Re-segments every line at match boundaries and overlays highlight
/// styles: sub-spans inside `matches[current]` get the current-match style
/// patched on, those inside any other match the highlight style. A line that
/// no usable match targets is copied unchanged; matches that are empty, out
/// of range, or not on character boundaries are skipped.
pub fn apply(lines: &[Line], matches: &[Match], current: usize) -> (r: Vec<Line>)
    requires
        forall|i: int| 0 <= i < lines@.len() ==> text_of((#[trigger] lines@[i])@.0).len() <= usize::MAX,
    ensures
        r@.len() == lines@.len(),
        forall|i: int|
            0 <= i < lines@.len() ==> (#[trigger] r@[i])@ == highlighted_line(
                lines@[i]@,
                i,
                matches@,
                current as int,
            ),
{
    let mut out: Vec<Line> = Vec::new();
    let mut line_idx: usize = 0;
    while line_idx < lines.len()
        invariant
            line_idx <= lines@.len(),
            out@.len() == line_idx,
            forall|i: int| 0 <= i < lines@.len() ==> text_of((#[trigger] lines@[i])@.0).len() <= usize::MAX,
            forall|i: int|
                0 <= i < line_idx ==> (#[trigger] out@[i])@ == highlighted_line(
                    lines@[i]@,
                    i,
                    matches@,
                    current as int,
                ),
        decreases lines@.len() - line_idx,
    {
        let line = apply_line(&lines[line_idx], line_idx, matches, current);
        out.push(line);
        line_idx = line_idx + 1;
    }
    out
}

/// `cuts_from` lists, in increasing order, exactly the interval endpoints
/// in `[from, hi)`.
proof fn lemma_cuts_from(ivs: Seq<(usize, usize, bool)>, from: int, hi: int)
    ensures
        ({
            let c = cuts_from(ivs, from, hi);
            &&& forall|i: int| 0 <= i < c.len() ==> from <= #[trigger] c[i] < hi && is_endpoint(ivs, c[i])
            &&& forall|i: int, j: int| 0 <= i < j < c.len() ==> c[i] < c[j]
            &&& forall|x: int| from <= x < hi && is_endpoint(ivs, x) ==> c.contains(x)
        }),
    decreases hi - from,
{
    if from < hi {
        lemma_cuts_from(ivs, from + 1, hi);
        let rest = cuts_from(ivs, from + 1, hi);
        let c = cuts_from(ivs, from, hi);
        if is_endpoint(ivs, from) {
            assert(c == seq![from] + rest);
            assert forall|i: int| 0 <= i < c.len() implies from <= #[trigger] c[i] < hi
                && is_endpoint(ivs, c[i]) by {
                if i > 0 {
                    assert(c[i] == rest[i - 1]);
                }
            }
            assert forall|i: int, j: int| 0 <= i < j < c.len() implies c[i] < c[j] by {
                assert(c[j] == rest[j - 1]);
                if i > 0 {
                    assert(c[i] == rest[i - 1]);
                }
            }
            assert forall|x: int| from <= x < hi && is_endpoint(ivs, x) implies c.contains(x) by {
                if x == from {
                    assert(c[0] == x);
                } else {
                    let t = choose|t: int| 0 <= t < rest.len() && rest[t] == x;
                    assert(c[t + 1] == x);
                }
            }
        }
    }
}

/// The cut points of a span run from its start to its end, each strictly
/// after the one before, except that an empty span has both ends at once.
proof fn lemma_piece_points_ordered(ivs: Seq<(usize, usize, bool)>, lo: int, hi: int)
    requires
        lo <= hi,
    ensures
        ({
            let pts = piece_points(ivs, lo, hi);
            &&& pts.len() >= 2
            &&& pts[0] == lo
            &&& pts[pts.len() - 1] == hi
            &&& forall|i: int, j: int| 0 <= i < j < pts.len() ==> pts[i] <= pts[j]
            &&& forall|i: int, j: int| 0 <= i < j < pts.len() && 0 < j < pts.len() - 1 ==> pts[i] < pts[j]
            &&& forall|i: int, j: int| 0 <= i < j < pts.len() && 0 < i < pts.len() - 1 ==> pts[i] < pts[j]
            &&& forall|x: int| lo < x < hi && is_endpoint(ivs, x) ==> pts.contains(x)
        }),
{
    lemma_cuts_from(ivs, lo + 1, hi);
    let c = cuts_from(ivs, lo + 1, hi);
    let pts = piece_points(ivs, lo, hi);
    assert forall|i: int| 0 < i < pts.len() - 1 implies pts[i] == c[i - 1] by {}
    assert forall|x: int| lo < x < hi && is_endpoint(ivs, x) implies pts.contains(x) by {
        let t = choose|t: int| 0 <= t < c.len() && c[t] == x;
        assert(pts[t + 1] == x);
    }
}

/// The pieces of a span, put back together, are the span's bytes.
proof fn lemma_span_pieces_text(span: (Seq<u8>, Style), lo: int, ivs: Seq<(usize, usize, bool)>)
    ensures
        text_of(span_pieces(span, lo, ivs)) == span.0,
{
    let hi = lo + span.0.len();
    let pts = piece_points(ivs, lo, hi);
    let pieces = span_pieces(span, lo, ivs);
    lemma_piece_points_ordered(ivs, lo, hi);
    let n = pieces.len() as int;
    assert forall|m: int| 0 <= m <= n implies text_of(#[trigger] pieces.take(m)) == span.0.subrange(
        0,
        pts[m] - lo,
    ) by {
        lemma_pieces_prefix(span, lo, ivs, m);
    }
    assert(pieces.take(n) =~= pieces);
    assert(span.0.subrange(0, hi - lo) =~= span.0);
}

/// The first `m` pieces of a span hold its bytes up to cut point `m`.
proof fn lemma_pieces_prefix(span: (Seq<u8>, Style), lo: int, ivs: Seq<(usize, usize, bool)>, m: int)
    requires
        0 <= m < piece_points(ivs, lo, lo + span.0.len()).len(),
    ensures
        text_of(span_pieces(span, lo, ivs).take(m)) == span.0.subrange(
            0,
            piece_points(ivs, lo, lo + span.0.len())[m] - lo,
        ),
    decreases m,
{
    let hi = lo + span.0.len();
    let pts = piece_points(ivs, lo, hi);
    let pieces = span_pieces(span, lo, ivs);
    lemma_piece_points_ordered(ivs, lo, hi);
    if m == 0 {
        assert(pieces.take(0) =~= Seq::<(Seq<u8>, Style)>::empty());
        assert(span.0.subrange(0, 0) =~= Seq::<u8>::empty());
    } else {
        lemma_pieces_prefix(span, lo, ivs, m - 1);
        assert(pieces.take(m).drop_last() =~= pieces.take(m - 1));
        assert(pts[m - 1] <= pts[m]);
        assert(span.0.subrange(0, pts[m - 1] - lo) + span.0.subrange(pts[m - 1] - lo, pts[m] - lo)
            =~= span.0.subrange(0, pts[m] - lo));
    }
}

/// Re-segmenting keeps the text: the new spans, put together, hold the
/// same bytes as the old ones.
proof fn lemma_resegmented_text(spans: Seq<(Seq<u8>, Style)>, ivs: Seq<(usize, usize, bool)>)
    ensures
        text_of(resegmented(spans, ivs)) == text_of(spans),
    decreases spans.len(),
{
    if spans.len() > 0 {
        lemma_resegmented_text(spans.drop_last(), ivs);
        let lo = text_of(spans.drop_last()).len() as int;
        lemma_text_concat(resegmented(spans.drop_last(), ivs), span_pieces(spans.last(), lo, ivs));
        lemma_span_pieces_text(spans.last(), lo, ivs);
    }
}

/// Highlighting never changes what a line says: the text of every line
/// after highlighting is its text before.
pub proof fn lemma_highlight_keeps_text(
    line: (Seq<(Seq<u8>, Style)>, Style, Option<Alignment>),
    idx: int,
    ms: Seq<Match>,
    current: int,
)
    ensures
        text_of(highlighted_line(line, idx, ms, current).0) == text_of(line.0),
        highlighted_line(line, idx, ms, current).1 == line.1,
        highlighted_line(line, idx, ms, current).2 == line.2,
{
    let ivs = line_intervals(ms, idx, current, text_of(line.0), ms.len() as int);
    lemma_resegmented_text(line.0, ivs);
}

/// No sub-span straddles a match boundary: the byte range between two
/// neighbouring cut points of a span lies either wholly inside or wholly
/// outside every interval.
pub proof fn lemma_pieces_respect_intervals(ivs: Seq<(usize, usize, bool)>, lo: int, hi: int)
    requires
        lo <= hi,
    ensures
        ({
            let pts = piece_points(ivs, lo, hi);
            forall|k: int, m: int|
                0 <= k < pts.len() - 1 && 0 <= m < ivs.len() ==> {
                    ||| pts[k + 1] <= (#[trigger] ivs[m]).0
                    ||| ivs[m].1 <= #[trigger] pts[k]
                    ||| (ivs[m].0 <= pts[k] && pts[k + 1] <= ivs[m].1)
                }
        }),
{
    let pts = piece_points(ivs, lo, hi);
    lemma_piece_points_ordered(ivs, lo, hi);
    assert forall|k: int, m: int| 0 <= k < pts.len() - 1 && 0 <= m < ivs.len() implies {
        ||| pts[k + 1] <= (#[trigger] ivs[m]).0
        ||| ivs[m].1 <= #[trigger] pts[k]
        ||| (ivs[m].0 <= pts[k] && pts[k + 1] <= ivs[m].1)
    } by {
        let a = pts[k];
        let b = pts[k + 1];
        let s = ivs[m].0 as int;
        let e = ivs[m].1 as int;
        assert(is_endpoint(ivs, s));
        assert(is_endpoint(ivs, e));
        if a < s && s < b {
            let t = choose|t: int| 0 <= t < pts.len() && pts[t] == s;
            assert(lo < s < hi);
            if t <= k {
                assert(pts[t] <= pts[k]);
            } else {
                assert(pts[k + 1] <= pts[t]);
            }
        }
        if a < e && e < b {
            let t = choose|t: int| 0 <= t < pts.len() && pts[t] == e;
            if t <= k {
                assert(pts[t] <= pts[k]);
            } else {
                assert(pts[k + 1] <= pts[t]);
            }
        }
    }
}

/// The style of a byte range: black on cyan patched onto the span's style
/// when the current match holds the range; black on yellow when only other
/// matches hold it; the span's own style when no match holds it. The
/// underline colour and the modifiers of the span are kept.
pub proof fn lemma_style_for(lo: int, hi: int, base: Style, ivs: Seq<(usize, usize, bool)>)
    ensures
        held_by_current(lo, hi, ivs) ==> {
            let st = style_for(lo, hi, base, ivs);
            &&& st.fg == Some(Color::Black)
            &&& st.bg == Some(Color::Cyan)
            &&& st.underline_color == base.underline_color
            &&& st.add_modifier == base.add_modifier
            &&& st.sub_modifier == base.sub_modifier
        },
        !held_by_current(lo, hi, ivs) && held(lo, hi, ivs) ==> {
            let st = style_for(lo, hi, base, ivs);
            &&& st.fg == Some(Color::Black)
            &&& st.bg == Some(Color::Yellow)
            &&& st.underline_color == base.underline_color
            &&& st.add_modifier == base.add_modifier
            &&& st.sub_modifier == base.sub_modifier
        },
        !held(lo, hi, ivs) ==> style_for(lo, hi, base, ivs) == base,
{
    let add = base.add_modifier;
    let sub = base.sub_modifier;
    assert((add & !0u16) | 0u16 == add) by (bit_vector);
    assert((sub & !0u16) | 0u16 == sub) by (bit_vector);
    if held_by_current(lo, hi, ivs) {
        let k = choose|k: int|
            0 <= k < ivs.len() && (#[trigger] ivs[k]).2 && ivs[k].0 <= lo && hi <= ivs[k].1;
        assert(ivs[k].0 <= lo && hi <= ivs[k].1);
    }
}

/// The style of a sub-span, byte by byte: since no sub-span straddles a
/// match boundary, a match holds the whole sub-span exactly when it holds
/// any one byte of it. So every byte of a sub-span inside the current match
/// gets the current-match style, every byte inside only other matches the
/// highlight style, and every other byte its span's own style.
pub proof fn lemma_piece_style_by_byte(ivs: Seq<(usize, usize, bool)>, lo: int, hi: int, t: int, x: int)
    requires
        lo <= hi,
        0 <= t < piece_points(ivs, lo, hi).len() - 1,
        piece_points(ivs, lo, hi)[t] <= x < piece_points(ivs, lo, hi)[t + 1],
    ensures
        ({
            let pts = piece_points(ivs, lo, hi);
            &&& held(pts[t], pts[t + 1], ivs) <==> exists|k: int|
                0 <= k < ivs.len() && (#[trigger] ivs[k]).0 <= x < ivs[k].1
            &&& held_by_current(pts[t], pts[t + 1], ivs) <==> exists|k: int|
                0 <= k < ivs.len() && (#[trigger] ivs[k]).2 && ivs[k].0 <= x < ivs[k].1
        }),
{
    let pts = piece_points(ivs, lo, hi);
    lemma_pieces_respect_intervals(ivs, lo, hi);
    let a = pts[t];
    let b = pts[t + 1];
    if exists|k: int| 0 <= k < ivs.len() && (#[trigger] ivs[k]).0 <= x < ivs[k].1 {
        let k = choose|k: int| 0 <= k < ivs.len() && (#[trigger] ivs[k]).0 <= x < ivs[k].1;
        assert(ivs[k].0 <= a && b <= ivs[k].1);
    }
    if exists|k: int| 0 <= k < ivs.len() && (#[trigger] ivs[k]).2 && ivs[k].0 <= x < ivs[k].1 {
        let k = choose|k: int|
            0 <= k < ivs.len() && (#[trigger] ivs[k]).2 && ivs[k].0 <= x < ivs[k].1;
        assert(ivs[k].0 <= a && b <= ivs[k].1);
    }
    if held(a, b, ivs) {
        let k = choose|k: int| 0 <= k < ivs.len() && (#[trigger] ivs[k]).0 <= a && b <= ivs[k].1;
        assert(ivs[k].0 <= x < ivs[k].1);
    }
    if held_by_current(a, b, ivs) {
        let k = choose|k: int|
            0 <= k < ivs.len() && (#[trigger] ivs[k]).2 && ivs[k].0 <= a && b <= ivs[k].1;
        assert(ivs[k].0 <= x < ivs[k].1);
    }
}

/// Only the current match is flagged: every flagged interval of a line is
/// the range of `ms[current]`, which lies on that line.
pub proof fn lemma_only_current_flagged(
    ms: Seq<Match>,
    idx: int,
    current: int,
    text: Seq<u8>,
    upto: int,
)
    requires
        0 <= upto <= ms.len(),
    ensures
        ({
            let ivs = line_intervals(ms, idx, current, text, upto);
            forall|k: int|
                0 <= k < ivs.len() && (#[trigger] ivs[k]).2 ==> {
                    &&& 0 <= current < ms.len()
                    &&& ms[current].line == idx
                    &&& ivs[k].0 == ms[current].start
                    &&& ivs[k].1 == ms[current].end
                }
        }),
    decreases upto,
{
    if upto > 0 {
        lemma_only_current_flagged(ms, idx, current, text, upto - 1);
        let prev = line_intervals(ms, idx, current, text, upto - 1);
        let ivs = line_intervals(ms, idx, current, text, upto);
        assert forall|k: int| 0 <= k < ivs.len() && (#[trigger] ivs[k]).2 implies {
            &&& 0 <= current < ms.len()
            &&& ms[current].line == idx
            &&& ivs[k].0 == ms[current].start
            &&& ivs[k].1 == ms[current].end
        } by {
            if k < prev.len() {
                assert(ivs[k] == prev[k]);
            }
        }
    }
}

/// Every match that the search finds can be highlighted: on a line whose
/// text is the searched line, it is non-empty, within the text, and on
/// character boundaries, so highlighting never skips it.
pub proof fn lemma_found_matches_are_highlightable(query: Seq<char>, lines: Seq<Seq<char>>)
    requires
        lines_fit(lines),
    ensures
        ({
            let r = spec_find_matches(query, lines);
            forall|k: int|
                0 <= k < r.len() ==> valid_match(
                    #[trigger] r[k],
                    encode_utf8(lines[r[k].line as int]),
                )
        }),
{
    lemma_matches_are_occurrences(query, lines);
    lemma_matches_on_char_boundaries(query, lines);
    let r = spec_find_matches(query, lines);
    if query.len() > 0 {
        assert forall|k: int| 0 <= k < r.len() implies valid_match(
            #[trigger] r[k],
            encode_utf8(lines[r[k].line as int]),
        ) by {
            assert(r[k].start < r[k].end);
        }
    }
}

/// The bytes of each span, in order.
pub open spec fn span_texts(spans: Seq<(Seq<u8>, Style)>) -> Seq<Seq<u8>> {
    spans.map_values(|p: (Seq<u8>, Style)| p.0)
}

/// Two runs of intervals with the same ranges in the same order, whatever
/// their current flags.
pub open spec fn same_ranges(i1: Seq<(usize, usize, bool)>, i2: Seq<(usize, usize, bool)>) -> bool {
    &&& i1.len() == i2.len()
    &&& forall|k: int| 0 <= k < i1.len() ==> (#[trigger] i1[k]).0 == i2[k].0 && i1[k].1 == i2[k].1
}

/// The index of the current match changes no interval's range; and any two
/// indices past the last match give the same intervals.
proof fn lemma_intervals_current(
    ms: Seq<Match>,
    idx: int,
    c1: int,
    c2: int,
    text: Seq<u8>,
    upto: int,
)
    requires
        0 <= upto <= ms.len(),
    ensures
        same_ranges(
            line_intervals(ms, idx, c1, text, upto),
            line_intervals(ms, idx, c2, text, upto),
        ),
        c1 >= ms.len() && c2 >= ms.len() ==> line_intervals(ms, idx, c1, text, upto)
            == line_intervals(ms, idx, c2, text, upto),
    decreases upto,
{
    if upto > 0 {
        lemma_intervals_current(ms, idx, c1, c2, text, upto - 1);
        let p1 = line_intervals(ms, idx, c1, text, upto - 1);
        let p2 = line_intervals(ms, idx, c2, text, upto - 1);
        let i1 = line_intervals(ms, idx, c1, text, upto);
        let i2 = line_intervals(ms, idx, c2, text, upto);
        assert forall|k: int| 0 <= k < i1.len() implies (#[trigger] i1[k]).0 == i2[k].0 && i1[k].1
            == i2[k].1 by {
            if k < p1.len() {
                assert(i1[k] == p1[k]);
                assert(i2[k] == p2[k]);
            }
        }
    }
}

/// The cut points of a span depend on the interval ranges only.
proof fn lemma_cuts_same_ranges(
    i1: Seq<(usize, usize, bool)>,
    i2: Seq<(usize, usize, bool)>,
    from: int,
    hi: int,
)
    requires
        same_ranges(i1, i2),
    ensures
        cuts_from(i1, from, hi) == cuts_from(i2, from, hi),
    decreases hi - from,
{
    if from < hi {
        lemma_cuts_same_ranges(i1, i2, from + 1, hi);
        if is_endpoint(i1, from) {
            let k = choose|k: int| 0 <= k < i1.len() && (i1[k].0 == from || i1[k].1 == from);
            assert(i2[k].0 == from || i2[k].1 == from);
        }
        if is_endpoint(i2, from) {
            let k = choose|k: int| 0 <= k < i2.len() && (i2[k].0 == from || i2[k].1 == from);
            assert(i1[k].0 == i2[k].0 && i1[k].1 == i2[k].1);
        }
    }
}

/// Re-segmenting cuts the same bytes for intervals with the same ranges.
proof fn lemma_resegmented_same_ranges(
    spans: Seq<(Seq<u8>, Style)>,
    i1: Seq<(usize, usize, bool)>,
    i2: Seq<(usize, usize, bool)>,
)
    requires
        same_ranges(i1, i2),
    ensures
        span_texts(resegmented(spans, i1)) == span_texts(resegmented(spans, i2)),
    decreases spans.len(),
{
    if spans.len() > 0 {
        lemma_resegmented_same_ranges(spans.drop_last(), i1, i2);
        let lo = text_of(spans.drop_last()).len() as int;
        let span = spans.last();
        lemma_cuts_same_ranges(i1, i2, lo + 1, lo + span.0.len());
        let a1 = resegmented(spans.drop_last(), i1);
        let a2 = resegmented(spans.drop_last(), i2);
        let p1 = span_pieces(span, lo, i1);
        let p2 = span_pieces(span, lo, i2);
        assert(span_texts(p1) =~= span_texts(p2));
        assert(span_texts(a1 + p1) =~= span_texts(a1) + span_texts(p1));
        assert(span_texts(a2 + p2) =~= span_texts(a2) + span_texts(p2));
    }
}

/// The index of the current match changes only styles: the sub-spans of a
/// line hold the same bytes, in the same order, whichever match is current;
/// and every index past the last match gives the same line.
pub proof fn lemma_current_changes_only_styles(
    line: (Seq<(Seq<u8>, Style)>, Style, Option<Alignment>),
    idx: int,
    ms: Seq<Match>,
    c1: int,
    c2: int,
)
    ensures
        span_texts(highlighted_line(line, idx, ms, c1).0) == span_texts(
            highlighted_line(line, idx, ms, c2).0,
        ),
        highlighted_line(line, idx, ms, c1).1 == highlighted_line(line, idx, ms, c2).1,
        highlighted_line(line, idx, ms, c1).2 == highlighted_line(line, idx, ms, c2).2,
        c1 >= ms.len() && c2 >= ms.len() ==> highlighted_line(line, idx, ms, c1)
            == highlighted_line(line, idx, ms, c2),
{
    let text = text_of(line.0);
    lemma_intervals_current(ms, idx, c1, c2, text, ms.len() as int);
    let i1 = line_intervals(ms, idx, c1, text, ms.len() as int);
    let i2 = line_intervals(ms, idx, c2, text, ms.len() as int);
    lemma_resegmented_same_ranges(line.0, i1, i2);
}

/// The byte offset at which span `j` starts in the text of a line.
pub open spec fn span_start(spans: Seq<(Seq<u8>, Style)>, j: int) -> int {
    text_of(spans.take(j)).len() as int
}

/// The style of the span that holds byte `x` of a line's text.
pub open spec fn style_at(spans: Seq<(Seq<u8>, Style)>, x: int) -> Style
    decreases spans.len(),
{
    if spans.len() == 0 {
        Style { fg: None, bg: None, underline_color: None, add_modifier: 0, sub_modifier: 0 }
    } else if x >= text_of(spans.drop_last()).len() {
        spans.last().1
    } else {
        style_at(spans.drop_last(), x)
    }
}

/// Byte `x` of the text lies in one of the spans.
pub open spec fn in_some_span(spans: Seq<(Seq<u8>, Style)>, x: int) -> bool {
    exists|j: int|
        0 <= j < spans.len() && span_start(spans, j) <= x < span_start(spans, j) + (
        #[trigger] spans[j]).0.len()
}

/// Match `k` lies on line `idx` and can be highlighted on a line with this
/// text: non-empty, within the text, on character boundaries.
pub open spec fn highlightable(ms: Seq<Match>, k: int, idx: int, text: Seq<u8>) -> bool {
    &&& 0 <= k < ms.len()
    &&& ms[k].line == idx
    &&& valid_match(ms[k], text)
}

/// A span ends where the next one starts, and no later than the text.
proof fn lemma_span_start_step(s: Seq<(Seq<u8>, Style)>, j: int)
    requires
        0 <= j < s.len(),
    ensures
        span_start(s, j) + s[j].0.len() == span_start(s, j + 1),
        span_start(s, j + 1) <= text_of(s).len(),
{
    lemma_text_take_step(s, j);
    lemma_text_take_prefix(s, j + 1);
}

/// Every byte of a line's text lies in some span.
proof fn lemma_every_byte_in_a_span(s: Seq<(Seq<u8>, Style)>, x: int)
    requires
        0 <= x < text_of(s).len(),
    ensures
        exists|j: int|
            0 <= j < s.len() && span_start(s, j) <= x < span_start(s, j) + (#[trigger] s[j]).0.len(),
    decreases s.len(),
{
    let init = s.drop_last();
    let last = s.len() - 1;
    assert(init =~= s.take(last));
    if x < text_of(init).len() {
        lemma_every_byte_in_a_span(init, x);
        let j = choose|j: int|
            0 <= j < init.len() && span_start(init, j) <= x < span_start(init, j) + (#[trigger] init[j]).0.len();
        assert(s.take(j) =~= init.take(j));
        assert(s[j] == init[j]);
    } else {
        assert(s.take(last) =~= init);
        assert(s[last] == s.last());
    }
}

/// Without intervals, re-segmenting leaves the spans as they are.
proof fn lemma_resegmented_no_intervals(spans: Seq<(Seq<u8>, Style)>)
    ensures
        resegmented(spans, Seq::<(usize, usize, bool)>::empty()) == spans,
    decreases spans.len(),
{
    let ivs = Seq::<(usize, usize, bool)>::empty();
    if spans.len() > 0 {
        lemma_resegmented_no_intervals(spans.drop_last());
        let lo = text_of(spans.drop_last()).len() as int;
        let span = spans.last();
        lemma_cuts_from(ivs, lo + 1, lo + span.0.len());
        let c = cuts_from(ivs, lo + 1, lo + span.0.len());
        if c.len() > 0 {
            assert(is_endpoint(ivs, c[0]));
        }
        assert(span.0.subrange(0, span.0.len() as int) =~= span.0);
        assert(span_pieces(span, lo, ivs) =~= seq![span]);
        assert(spans.drop_last() + seq![span] =~= spans);
    }
}

/// No interval endpoint lies strictly between two neighbouring cut points.
proof fn lemma_no_endpoint_between(ivs: Seq<(usize, usize, bool)>, lo: int, hi: int, t: int, e: int)
    requires
        lo <= hi,
        0 <= t < piece_points(ivs, lo, hi).len() - 1,
        is_endpoint(ivs, e),
    ensures
        !(piece_points(ivs, lo, hi)[t] < e < piece_points(ivs, lo, hi)[t + 1]),
{
    let pts = piece_points(ivs, lo, hi);
    lemma_piece_points_ordered(ivs, lo, hi);
    if pts[t] < e && e < pts[t + 1] {
        assert(lo <= pts[t]);
        assert(pts[t + 1] <= hi);
        let u = choose|u: int| 0 <= u < pts.len() && pts[u] == e;
        if u <= t {
            assert(pts[u] <= pts[t]);
        } else {
            assert(pts[t + 1] <= pts[u]);
        }
    }
}

/// Every sub-span that re-segmenting gives has the style `style_for` gives
/// its byte range, over the style of the span that held its bytes, and no
/// interval endpoint lies strictly inside it.
proof fn lemma_resegmented_pieces(spans: Seq<(Seq<u8>, Style)>, ivs: Seq<(usize, usize, bool)>)
    ensures
        ({
            let r = resegmented(spans, ivs);
            forall|j: int, x: int|
                #![trigger r[j], style_at(spans, x)]
                0 <= j < r.len() && span_start(r, j) <= x < span_start(r, j) + r[j].0.len() ==> {
                    &&& r[j].1 == style_for(
                        span_start(r, j),
                        span_start(r, j) + r[j].0.len(),
                        style_at(spans, x),
                        ivs,
                    )
                    &&& forall|e: int|
                        is_endpoint(ivs, e) ==> !(span_start(r, j) < e < span_start(r, j)
                            + r[j].0.len())
                }
        }),
    decreases spans.len(),
{
    if spans.len() > 0 {
        let init = spans.drop_last();
        let span = spans.last();
        lemma_resegmented_pieces(init, ivs);
        lemma_resegmented_text(init, ivs);
        let lo = text_of(init).len() as int;
        let hi = lo + span.0.len();
        let r0 = resegmented(init, ivs);
        let p = span_pieces(span, lo, ivs);
        let r = resegmented(spans, ivs);
        let pts = piece_points(ivs, lo, hi);
        lemma_piece_points_ordered(ivs, lo, hi);
        assert(r == r0 + p);
        assert forall|j: int, x: int|
            #![trigger r[j], style_at(spans, x)]
            0 <= j < r.len() && span_start(r, j) <= x < span_start(r, j) + r[j].0.len() implies {
            &&& r[j].1 == style_for(
                span_start(r, j),
                span_start(r, j) + r[j].0.len(),
                style_at(spans, x),
                ivs,
            )
            &&& forall|e: int|
                is_endpoint(ivs, e) ==> !(span_start(r, j) < e < span_start(r, j) + r[j].0.len())
        } by {
            if j < r0.len() {
                assert(r.take(j) =~= r0.take(j));
                assert(r[j] == r0[j]);
                lemma_span_start_step(r0, j);
                assert(x < lo);
                assert(style_at(spans, x) == style_at(init, x));
            } else {
                let t = j - r0.len();
                assert(r.take(j) =~= r0 + p.take(t));
                lemma_text_concat(r0, p.take(t));
                lemma_pieces_prefix(span, lo, ivs, t);
                assert(pts[t] <= pts[t + 1]);
                assert(span_start(r, j) == pts[t]);
                assert(r[j] == p[t]);
                assert(r[j].0.len() == pts[t + 1] - pts[t]);
                assert(x >= lo);
                assert(style_at(spans, x) == span.1);
                assert forall|e: int| is_endpoint(ivs, e) implies !(span_start(r, j) < e
                    < span_start(r, j) + r[j].0.len()) by {
                    lemma_no_endpoint_between(ivs, lo, hi, t, e);
                }
            }
        }
    }
}

/// The intervals of a line are exactly the ranges of the matches on it
/// that can be highlighted, each flagged when it is the current match.
proof fn lemma_intervals_are_matches(ms: Seq<Match>, idx: int, current: int, text: Seq<u8>, upto: int)
    requires
        0 <= upto <= ms.len(),
    ensures
        ({
            let ivs = line_intervals(ms, idx, current, text, upto);
            &&& forall|k: int|
                0 <= k < upto && #[trigger] highlightable(ms, k, idx, text) ==> exists|t: int|
                    0 <= t < ivs.len() && ivs[t].0 == ms[k].start && ivs[t].1 == ms[k].end
                        && ivs[t].2 == (k == current)
            &&& forall|t: int|
                #![trigger ivs[t]]
                0 <= t < ivs.len() ==> exists|k: int|
                    0 <= k < upto && #[trigger] highlightable(ms, k, idx, text) && ivs[t].0
                        == ms[k].start && ivs[t].1 == ms[k].end && ivs[t].2 == (k == current)
        }),
    decreases upto,
{
    if upto > 0 {
        lemma_intervals_are_matches(ms, idx, current, text, upto - 1);
        let prev = line_intervals(ms, idx, current, text, upto - 1);
        let ivs = line_intervals(ms, idx, current, text, upto);
        let last = upto - 1;
        if highlightable(ms, last, idx, text) {
            assert(ivs == prev + seq![(ms[last].start, ms[last].end, last == current)]);
        } else {
            assert(ivs =~= prev);
        }
        assert forall|k: int|
            0 <= k < upto && #[trigger] highlightable(ms, k, idx, text) implies exists|t: int|
            0 <= t < ivs.len() && ivs[t].0 == ms[k].start && ivs[t].1 == ms[k].end && ivs[t].2 == (k
                == current) by {
            if k < last {
                let t = choose|t: int|
                    0 <= t < prev.len() && prev[t].0 == ms[k].start && prev[t].1 == ms[k].end
                        && prev[t].2 == (k == current);
                assert(ivs[t] == prev[t]);
            } else {
                assert(ivs[prev.len() as int] == (ms[k].start, ms[k].end, k == current));
            }
        }
        assert forall|t: int|
            #![trigger ivs[t]]
            0 <= t < ivs.len() implies exists|k: int|
            0 <= k < upto && #[trigger] highlightable(ms, k, idx, text) && ivs[t].0 == ms[k].start
                && ivs[t].1 == ms[k].end && ivs[t].2 == (k == current) by {
            if t < prev.len() {
                assert(ivs[t] == prev[t]);
                let k = choose|k: int|
                    0 <= k < upto - 1 && #[trigger] highlightable(ms, k, idx, text) && prev[t].0
                        == ms[k].start && prev[t].1 == ms[k].end && prev[t].2 == (k == current);
                assert(highlightable(ms, k, idx, text));
                assert(0 <= k < upto && ivs[t].0 == ms[k].start && ivs[t].1 == ms[k].end && ivs[t].2 == (k == current));
            } else {
                assert(highlightable(ms, last, idx, text));
                assert(ivs[t] == (ms[last].start, ms[last].end, last == current));
            }
        }
    }
}

/// What highlighting does to every byte of a line. Every byte of the text
/// lies in one of the sub-spans; and the sub-span that holds byte `x` has
/// the style of the span that held `x` with:
/// - the current-match style patched on, when `matches[current]` lies on
///   this line, can be highlighted, and holds `x`;
/// - else the highlight style patched on, when some match on this line that
///   can be highlighted holds `x`;
/// - else nothing patched on.
pub proof fn lemma_apply_styles_every_byte(
    line: (Seq<(Seq<u8>, Style)>, Style, Option<Alignment>),
    idx: int,
    ms: Seq<Match>,
    current: int,
)
    ensures
        ({
            let out = highlighted_line(line, idx, ms, current).0;
            let text = text_of(line.0);
            &&& forall|x: int| 0 <= x < text.len() ==> #[trigger] in_some_span(out, x)
            &&& forall|j: int, x: int|
                #![trigger out[j], style_at(line.0, x)]
                0 <= j < out.len() && span_start(out, j) <= x < span_start(out, j) + out[j].0.len()
                    ==> {
                    let st = style_at(line.0, x);
                    let in_current = highlightable(ms, current, idx, text) && ms[current].start <= x
                        < ms[current].end;
                    let in_some = exists|k: int|
                        #[trigger] highlightable(ms, k, idx, text) && ms[k].start <= x < ms[k].end;
                    &&& in_current ==> out[j].1 == patched(st, current_highlight_style())
                    &&& !in_current && in_some ==> out[j].1 == patched(st, highlight_style())
                    &&& !in_some ==> out[j].1 == st
                }
        }),
{
    let text = text_of(line.0);
    let ivs = line_intervals(ms, idx, current, text, ms.len() as int);
    let out = highlighted_line(line, idx, ms, current).0;
    if ivs.len() == 0 {
        lemma_resegmented_no_intervals(line.0);
        assert(ivs =~= Seq::<(usize, usize, bool)>::empty());
    }
    assert(out == resegmented(line.0, ivs));
    lemma_resegmented_text(line.0, ivs);
    lemma_resegmented_pieces(line.0, ivs);
    lemma_intervals_are_matches(ms, idx, current, text, ms.len() as int);
    assert forall|x: int| 0 <= x < text.len() implies #[trigger] in_some_span(out, x) by {
        lemma_every_byte_in_a_span(out, x);
    }
    assert forall|j: int, x: int|
        #![trigger out[j], style_at(line.0, x)]
        0 <= j < out.len() && span_start(out, j) <= x < span_start(out, j) + out[j].0.len() implies {
        let st = style_at(line.0, x);
        let in_current = highlightable(ms, current, idx, text) && ms[current].start <= x
            < ms[current].end;
        let in_some = exists|k: int|
            #[trigger] highlightable(ms, k, idx, text) && ms[k].start <= x < ms[k].end;
        &&& in_current ==> out[j].1 == patched(st, current_highlight_style())
        &&& !in_current && in_some ==> out[j].1 == patched(st, highlight_style())
        &&& !in_some ==> out[j].1 == st
    } by {
        let a = span_start(out, j);
        let b = a + out[j].0.len();
        let st = style_at(line.0, x);
        assert(out[j].1 == style_for(a, b, st, ivs));
        let in_current = highlightable(ms, current, idx, text) && ms[current].start <= x
            < ms[current].end;
        let in_some = exists|k: int|
            #[trigger] highlightable(ms, k, idx, text) && ms[k].start <= x < ms[k].end;
        // held_by_current <==> in_current
        if in_current {
            let t = choose|t: int|
                0 <= t < ivs.len() && ivs[t].0 == ms[current].start && ivs[t].1 == ms[current].end
                    && ivs[t].2 == (current == current);
            assert(is_endpoint(ivs, ivs[t].0 as int));
            assert(is_endpoint(ivs, ivs[t].1 as int));
            assert(ivs[t].0 <= a && b <= ivs[t].1);
            assert(held_by_current(a, b, ivs));
        }
        if held_by_current(a, b, ivs) {
            let t = choose|t: int|
                0 <= t < ivs.len() && (#[trigger] ivs[t]).2 && ivs[t].0 <= a && b <= ivs[t].1;
            let k = choose|k: int|
                0 <= k < ms.len() && highlightable(ms, k, idx, text) && ivs[t].0 == ms[k].start
                    && ivs[t].1 == ms[k].end && ivs[t].2 == (k == current);
            assert(k == current);
            assert(in_current);
        }
        if in_some {
            let k = choose|k: int|
                #[trigger] highlightable(ms, k, idx, text) && ms[k].start <= x < ms[k].end;
            let t = choose|t: int|
                0 <= t < ivs.len() && ivs[t].0 == ms[k].start && ivs[t].1 == ms[k].end && ivs[t].2
                    == (k == current);
            assert(is_endpoint(ivs, ivs[t].0 as int));
            assert(is_endpoint(ivs, ivs[t].1 as int));
            assert(ivs[t].0 <= a && b <= ivs[t].1);
            assert(held(a, b, ivs));
        }
        if held(a, b, ivs) {
            let t = choose|t: int| 0 <= t < ivs.len() && (#[trigger] ivs[t]).0 <= a && b <= ivs[t].1;
            let k = choose|k: int|
                0 <= k < ms.len() && highlightable(ms, k, idx, text) && ivs[t].0 == ms[k].start
                    && ivs[t].1 == ms[k].end && ivs[t].2 == (k == current);
            assert(highlightable(ms, k, idx, text) && ms[k].start <= x < ms[k].end);
            assert(in_some);
        }
    }
}

} // verus!
