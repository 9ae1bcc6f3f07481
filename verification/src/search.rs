//! Literal substring search over a slice of lines, with smartcase.
//!
//! A query that holds no ASCII uppercase letter matches case-insensitively
//! (ASCII case folding); one that holds any matches case-sensitively. The
//! query is always a literal. Offsets are byte offsets into the line's UTF-8
//! encoding; matches within a line are the leftmost non-overlapping ones.
use vstd::prelude::*;
use vstd::utf8::*;

verus! {

/// A single non-overlapping substring match: `line` indexes the searched
/// lines, and `[start, end)` is a byte range into that line.
#[derive(Debug, Clone, Copy, PartialEq, Eq, Structural)]
pub struct Match {
    pub line: usize,
    pub start: usize,
    pub end: usize,
}

/// `c` is an ASCII uppercase letter.
pub open spec fn is_ascii_upper(c: char) -> bool {
    'A' <= c && c <= 'Z'
}

/// The query holds at least one ASCII uppercase letter.
pub open spec fn has_ascii_upper(q: Seq<char>) -> bool {
    exists|i: int| 0 <= i < q.len() && is_ascii_upper(#[trigger] q[i])
}

/// ASCII lowercase folding of one byte; every other byte is unchanged.
pub open spec fn fold_byte(b: u8) -> u8 {
    if 65 <= b && b <= 90 {
        (b + 32) as u8
    } else {
        b
    }
}

/// ASCII lowercase folding of a byte string (it keeps the length).
pub open spec fn fold_bytes(s: Seq<u8>) -> Seq<u8> {
    Seq::new(s.len(), |i: int| fold_byte(s[i]))
}

/// `needle` occurs in `hay` at byte offset `pos`.
pub open spec fn occurs_at(hay: Seq<u8>, needle: Seq<u8>, pos: int) -> bool {
    &&& 0 <= pos
    &&& pos + needle.len() <= hay.len()
    &&& hay.subrange(pos, pos + needle.len()) == needle
}

/// The match of `needle` at `pos` in line number `line`.
pub open spec fn match_at(line: int, needle: Seq<u8>, pos: int) -> Match {
    Match { line: line as usize, start: pos as usize, end: (pos + needle.len()) as usize }
}

/// The leftmost non-overlapping occurrences of `needle` in `hay` that start
/// at `pos` or later, as matches on line `line`: the scan takes an occurrence
/// where one starts and resumes after it, else moves on by one byte.
pub open spec fn scan_line(line: int, hay: Seq<u8>, needle: Seq<u8>, pos: int) -> Seq<Match>
    decreases hay.len() - pos,
{
    if needle.len() == 0 || pos < 0 || pos + needle.len() > hay.len() {
        seq![]
    } else if occurs_at(hay, needle, pos) {
        seq![match_at(line, needle, pos)] + scan_line(line, hay, needle, pos + needle.len())
    } else {
        scan_line(line, hay, needle, pos + 1)
    }
}

/// The bytes that are searched in a line: its UTF-8 encoding, folded when
/// the search ignores ASCII case.
pub open spec fn haystack(line: Seq<char>, fold: bool) -> Seq<u8> {
    if fold {
        fold_bytes(encode_utf8(line))
    } else {
        encode_utf8(line)
    }
}

/// The matches in the first `n` lines, line by line.
pub open spec fn doc_matches(lines: Seq<Seq<char>>, needle: Seq<u8>, fold: bool, n: int) -> Seq<
    Match,
>
    decreases n,
{
    if n <= 0 {
        seq![]
    } else {
        doc_matches(lines, needle, fold, n - 1) + scan_line(
            n - 1,
            haystack(lines[n - 1], fold),
            needle,
            0,
        )
    }
}

/// The characters of each line.
pub open spec fn line_views(lines: Seq<String>) -> Seq<Seq<char>> {
    lines.map_values(|s: String| s@)
}

/// The search is case-sensitive exactly when the query holds an ASCII
/// uppercase letter.
pub open spec fn is_case_sensitive(query: Seq<char>) -> bool {
    has_ascii_upper(query)
}

/// The bytes looked for: the query's UTF-8 encoding, folded when the search
/// ignores ASCII case.
pub open spec fn needle_of(query: Seq<char>) -> Seq<u8> {
    if is_case_sensitive(query) {
        encode_utf8(query)
    } else {
        fold_bytes(encode_utf8(query))
    }
}

/// All matches of `query` in `lines`, in document order; none for an empty
/// query.
pub open spec fn spec_find_matches(query: Seq<char>, lines: Seq<Seq<char>>) -> Seq<Match> {
    if query.len() == 0 {
        seq![]
    } else {
        doc_matches(lines, needle_of(query), !is_case_sensitive(query), lines.len() as int)
    }
}

fn fold_ascii(b: u8) -> (r: u8)
    ensures
        r == fold_byte(b),
{
    if 65 <= b && b <= 90 {
        b + 32
    } else {
        b
    }
}

/// Whether `needle` occurs at `pos` in `hay`, folded first when `fold` holds.
fn occurs_at_exec(hay: &[u8], needle: &[u8], pos: usize, fold: bool) -> (r: bool)
    requires
        pos + needle@.len() <= hay@.len(),
    ensures
        r == occurs_at(if fold { fold_bytes(hay@) } else { hay@ }, needle@, pos as int),
{
    let ghost h = if fold { fold_bytes(hay@) } else { hay@ };
    let n = needle.len();
    let mut k: usize = 0;
    while k < n
        invariant
            k <= n,
            n == needle@.len(),
            pos + n <= hay.len(),
            h == (if fold { fold_bytes(hay@) } else { hay@ }),
            forall|j: int| 0 <= j < k ==> h[pos + j] == needle@[j],
        decreases n - k,
    {
        let b = if fold { fold_ascii(hay[pos + k]) } else { hay[pos + k] };
        if b != needle[k] {
            assert(h.subrange(pos as int, pos + n)[k as int] != needle@[k as int]);
            return false;
        }
        k = k + 1;
    }
    assert(h.subrange(pos as int, pos + n) =~= needle@);
    true
}

/// Appends the matches of `needle` in `hay` (line number `line`) to `out`.
fn scan_into(line: usize, hay: &[u8], needle: &[u8], fold: bool, out: &mut Vec<Match>)
    requires
        needle@.len() > 0,
    ensures
        final(out)@ == old(out)@ + scan_line(
            line as int,
            if fold { fold_bytes(hay@) } else { hay@ },
            needle@,
            0,
        ),
{
    let ghost h = if fold { fold_bytes(hay@) } else { hay@ };
    let ghost before = out@;
    let n = needle.len();
    let len = hay.len();
    let mut pos: usize = 0;
    while n <= len && pos <= len - n
        invariant
            n == needle@.len(),
            n > 0,
            len == hay@.len(),
            h.len() == len,
            h == (if fold { fold_bytes(hay@) } else { hay@ }),
            pos <= len,
            out@ + scan_line(line as int, h, needle@, pos as int) == before + scan_line(
                line as int,
                h,
                needle@,
                0,
            ),
        decreases len - pos,
    {
        if occurs_at_exec(hay, needle, pos, fold) {
            let m = Match { line, start: pos, end: pos + n };
            proof {
                assert(scan_line(line as int, h, needle@, pos as int) == seq![m] + scan_line(
                    line as int,
                    h,
                    needle@,
                    pos + n,
                ));
                assert(out@.push(m) + scan_line(line as int, h, needle@, pos + n) =~= out@ + (seq![
                    m,
                ] + scan_line(line as int, h, needle@, pos + n)));
            }
            out.push(m);
            pos = pos + n;
        } else {
            pos = pos + 1;
        }
    }
    assert(out@ + scan_line(line as int, h, needle@, pos as int) =~= out@);
}

proof fn lemma_encode_nonempty(s: Seq<char>)
    requires
        s.len() > 0,
    ensures
        encode_utf8(s).len() > 0,
{
}

fn find_matches_case_sensitive(query: &str, lines: &[String]) -> (r: Vec<Match>)
    requires
        query@.len() > 0,
    ensures
        r@ == doc_matches(line_views(lines@), encode_utf8(query@), false, lines@.len() as int),
{
    let needle = query.as_bytes();
    proof {
        lemma_encode_nonempty(query@);
    }
    let ghost lv = line_views(lines@);
    let mut matches: Vec<Match> = Vec::new();
    let mut i: usize = 0;
    while i < lines.len()
        invariant
            i <= lines@.len(),
            needle@ == encode_utf8(query@),
            needle@.len() > 0,
            lv == line_views(lines@),
            matches@ == doc_matches(lv, encode_utf8(query@), false, i as int),
        decreases lines@.len() - i,
    {
        let hay = lines[i].as_str().as_bytes();
        assert(lv[i as int] == lines@[i as int]@);
        scan_into(i, hay, needle, false, &mut matches);
        i = i + 1;
    }
    matches
}

/// The ASCII lowercase folding of a byte string.
fn fold_all(s: &[u8]) -> (r: Vec<u8>)
    ensures
        r@ == fold_bytes(s@),
{
    let mut r: Vec<u8> = Vec::new();
    let mut i: usize = 0;
    while i < s.len()
        invariant
            i <= s@.len(),
            r@ =~= fold_bytes(s@).subrange(0, i as int),
        decreases s@.len() - i,
    {
        r.push(fold_ascii(s[i]));
        i = i + 1;
    }
    assert(r@ =~= fold_bytes(s@));
    r
}

fn find_matches_case_insensitive(query: &str, lines: &[String]) -> (r: Vec<Match>)
    requires
        query@.len() > 0,
    ensures
        r@ == doc_matches(
            line_views(lines@),
            fold_bytes(encode_utf8(query@)),
            true,
            lines@.len() as int,
        ),
{
    let needle = fold_all(query.as_bytes());
    proof {
        lemma_encode_nonempty(query@);
    }
    let ghost lv = line_views(lines@);
    let mut matches: Vec<Match> = Vec::new();
    let mut i: usize = 0;
    while i < lines.len()
        invariant
            i <= lines@.len(),
            needle@ == fold_bytes(encode_utf8(query@)),
            needle@.len() > 0,
            lv == line_views(lines@),
            matches@ == doc_matches(lv, needle@, true, i as int),
        decreases lines@.len() - i,
    {
        let hay = lines[i].as_str().as_bytes();
        assert(lv[i as int] == lines@[i as int]@);
        scan_into(i, hay, needle.as_slice(), true, &mut matches);
        i = i + 1;
    }
    matches
}

/// Whether the query holds an ASCII uppercase letter.
fn query_has_upper(query: &str) -> (r: bool)
    ensures
        r == has_ascii_upper(query@),
{
    let n = query.unicode_len();
    let mut i: usize = 0;
    while i < n
        invariant
            n == query@.len(),
            i <= n,
            forall|j: int| 0 <= j < i ==> !is_ascii_upper(#[trigger] query@[j]),
        decreases n - i,
    {
        let c = query.get_char(i);
        if 'A' <= c && c <= 'Z' {
            assert(is_ascii_upper(query@[i as int]));
            return true;
        }
        i = i + 1;
    }
    false
}

/// Finds all non-overlapping occurrences of `query` within `lines`, in
/// document order (line ascending, then offset ascending). An empty query,
/// or one with no occurrence, gives an empty `Vec`.
pub fn find_matches(query: &str, lines: &[String]) -> (r: Vec<Match>)
    ensures
        r@ == spec_find_matches(query@, line_views(lines@)),
{
    if query.is_empty() {
        return Vec::new();
    }
    let case_sensitive = query_has_upper(query);
    if case_sensitive {
        find_matches_case_sensitive(query, lines)
    } else {
        find_matches_case_insensitive(query, lines)
    }
}

/// The scan of one line: each match is an occurrence at or after `pos`, the
/// matches do not overlap and come in order, and every occurrence at or after
/// `pos` starts inside some match.
#[verifier::rlimit(30)]
proof fn lemma_scan_line(line: int, hay: Seq<u8>, needle: Seq<u8>, pos: int)
    requires
        needle.len() > 0,
        0 <= pos,
        0 <= line <= usize::MAX,
        hay.len() <= usize::MAX,
    ensures
        ({
            let s = scan_line(line, hay, needle, pos);
            &&& forall|k: int|
                0 <= k < s.len() ==> {
                    &&& (#[trigger] s[k]).line == line
                    &&& pos <= s[k].start
                    &&& s[k].end == s[k].start + needle.len()
                    &&& occurs_at(hay, needle, s[k].start as int)
                }
            &&& forall|i: int, j: int| 0 <= i < j < s.len() ==> s[i].end <= s[j].start
            &&& forall|p: int|
                pos <= p && occurs_at(hay, needle, p) ==> exists|k: int|
                    0 <= k < s.len() && #[trigger] s[k].start <= p < s[k].end
        }),
    decreases hay.len() - pos,
{
    let s = scan_line(line, hay, needle, pos);
    if pos + needle.len() > hay.len() {
    } else if occurs_at(hay, needle, pos) {
        let next = pos + needle.len();
        lemma_scan_line(line, hay, needle, next);
        let rest = scan_line(line, hay, needle, next);
        let m = match_at(line, needle, pos);
        assert(s == seq![m] + rest);
        assert forall|k: int| 0 <= k < s.len() implies {
            &&& (#[trigger] s[k]).line == line
            &&& pos <= s[k].start
            &&& s[k].end == s[k].start + needle.len()
            &&& occurs_at(hay, needle, s[k].start as int)
        } by {
            if k > 0 {
                assert(s[k] == rest[k - 1]);
            }
        }
        assert forall|i: int, j: int| 0 <= i < j < s.len() implies s[i].end <= s[j].start by {
            assert(s[j] == rest[j - 1]);
            if i > 0 {
                assert(s[i] == rest[i - 1]);
            }
        }
        assert forall|p: int| pos <= p && occurs_at(hay, needle, p) implies exists|k: int|
            0 <= k < s.len() && #[trigger] s[k].start <= p < s[k].end by {
            if p < next {
                assert(s[0].start <= p < s[0].end);
            } else {
                let k = choose|k: int| 0 <= k < rest.len() && #[trigger] rest[k].start <= p < rest[k].end;
                assert(s[k + 1] == rest[k]);
            }
        }
    } else {
        lemma_scan_line(line, hay, needle, pos + 1);
        assert forall|p: int| pos <= p && occurs_at(hay, needle, p) implies exists|k: int|
            0 <= k < s.len() && #[trigger] s[k].start <= p < s[k].end by {
            assert(p != pos);
        }
    }
}

/// The matches in the first `n` lines: each lies on one of those lines and
/// is an occurrence there; they come line by line and, within a line, in
/// order without overlap; every occurrence on those lines starts inside one.
#[verifier::spinoff_prover]
#[verifier::rlimit(40)]
proof fn lemma_doc_matches(lines: Seq<Seq<char>>, needle: Seq<u8>, fold: bool, n: int)
    requires
        needle.len() > 0,
        0 <= n <= lines.len(),
        lines.len() <= usize::MAX,
        forall|i: int| 0 <= i < lines.len() ==> #[trigger] encode_utf8(lines[i]).len() <= usize::MAX,
    ensures
        ({
            let r = doc_matches(lines, needle, fold, n);
            &&& forall|k: int|
                0 <= k < r.len() ==> {
                    &&& (#[trigger] r[k]).line < n
                    &&& r[k].end == r[k].start + needle.len()
                    &&& occurs_at(haystack(lines[r[k].line as int], fold), needle, r[k].start as int)
                }
            &&& forall|i: int, j: int|
                0 <= i < j < r.len() ==> r[i].line < r[j].line || (r[i].line == r[j].line
                    && r[i].end <= r[j].start)
            &&& forall|l: int, p: int|
                0 <= l < n && occurs_at(haystack(lines[l], fold), needle, p) ==> exists|k: int|
                    0 <= k < r.len() && (#[trigger] r[k]).line == l && r[k].start <= p < r[k].end
        }),
    decreases n,
{
    if n > 0 {
        lemma_doc_matches(lines, needle, fold, n - 1);
        let prev = doc_matches(lines, needle, fold, n - 1);
        let h = haystack(lines[n - 1], fold);
        assert(h.len() == encode_utf8(lines[n - 1]).len());
        lemma_scan_line(n - 1, h, needle, 0);
        let s = scan_line(n - 1, h, needle, 0);
        let r = doc_matches(lines, needle, fold, n);
        assert(r == prev + s);
        assert forall|k: int| 0 <= k < r.len() implies {
            &&& (#[trigger] r[k]).line < n
            &&& r[k].end == r[k].start + needle.len()
            &&& occurs_at(haystack(lines[r[k].line as int], fold), needle, r[k].start as int)
        } by {
            if k >= prev.len() {
                assert(r[k] == s[k - prev.len()]);
            } else {
                assert(r[k] == prev[k]);
            }
        }
        assert forall|i: int, j: int| 0 <= i < j < r.len() implies r[i].line < r[j].line || (
        r[i].line == r[j].line && r[i].end <= r[j].start) by {
            if j >= prev.len() {
                assert(r[j] == s[j - prev.len()]);
                if i >= prev.len() {
                    assert(r[i] == s[i - prev.len()]);
                } else {
                    assert(r[i] == prev[i]);
                }
            } else {
                assert(r[i] == prev[i]);
                assert(r[j] == prev[j]);
            }
        }
        assert forall|l: int, p: int|
            0 <= l < n && occurs_at(haystack(lines[l], fold), needle, p) implies exists|k: int|
            0 <= k < r.len() && (#[trigger] r[k]).line == l && r[k].start <= p < r[k].end by {
            if l < n - 1 {
                let k = choose|k: int|
                    0 <= k < prev.len() && (#[trigger] prev[k]).line == l && prev[k].start <= p
                        < prev[k].end;
                assert(r[k] == prev[k]);
            } else {
                let k = choose|k: int| 0 <= k < s.len() && #[trigger] s[k].start <= p < s[k].end;
                assert(r[k + prev.len()] == s[k]);
            }
        }
    }
}

/// Lines that a program can hold: their number and each one's byte length
/// fit in a `usize`.
pub open spec fn lines_fit(lines: Seq<Seq<char>>) -> bool {
    &&& lines.len() <= usize::MAX
    &&& forall|i: int| 0 <= i < lines.len() ==> #[trigger] encode_utf8(lines[i]).len() <= usize::MAX
}

/// The matches come in document order: by line, and within a line by offset,
/// with no two overlapping.
pub proof fn lemma_matches_in_document_order(query: Seq<char>, lines: Seq<Seq<char>>)
    requires
        lines_fit(lines),
    ensures
        ({
            let r = spec_find_matches(query, lines);
            forall|i: int, j: int|
                0 <= i < j < r.len() ==> r[i].line < r[j].line || (r[i].line == r[j].line
                    && r[i].end <= r[j].start)
        }),
{
    if query.len() > 0 {
        lemma_encode_nonempty(query);
        lemma_doc_matches(lines, needle_of(query), !is_case_sensitive(query), lines.len() as int);
    }
}

/// Every match is an occurrence of the query on its line: the exact bytes
/// of the query for a case-sensitive search, the same bytes up to ASCII case
/// otherwise.
pub proof fn lemma_matches_are_occurrences(query: Seq<char>, lines: Seq<Seq<char>>)
    requires
        lines_fit(lines),
    ensures
        ({
            let r = spec_find_matches(query, lines);
            forall|k: int|
                #![trigger r[k]]
                0 <= k < r.len() ==> {
                    let m = r[k];
                    let b = encode_utf8(lines[m.line as int]);
                    &&& m.line < lines.len()
                    &&& m.start < m.end <= b.len()
                    &&& m.end - m.start == encode_utf8(query).len()
                    &&& is_case_sensitive(query) ==> b.subrange(m.start as int, m.end as int)
                        == encode_utf8(query)
                    &&& !is_case_sensitive(query) ==> fold_bytes(
                        b.subrange(m.start as int, m.end as int),
                    ) == fold_bytes(encode_utf8(query))
                }
        }),
{
    let r = spec_find_matches(query, lines);
    if query.len() > 0 {
        lemma_encode_nonempty(query);
        let fold = !is_case_sensitive(query);
        lemma_doc_matches(lines, needle_of(query), fold, lines.len() as int);
        assert forall|k: int| 0 <= k < r.len() && !is_case_sensitive(query) implies fold_bytes(
            encode_utf8(lines[r[k].line as int]).subrange(r[k].start as int, r[k].end as int),
        ) == fold_bytes(encode_utf8(query)) by {
            let b = encode_utf8(lines[r[k].line as int]);
            if fold {
                assert(fold_bytes(b).subrange(r[k].start as int, r[k].end as int) =~= fold_bytes(
                    b.subrange(r[k].start as int, r[k].end as int),
                ));
            }
        }
    }
}

/// Folding two bytes to the same value keeps them in the same UTF-8 class.
proof fn lemma_fold_keeps_class(a: u8, b: u8)
    requires
        fold_byte(a) == fold_byte(b),
    ensures
        is_continuation_byte(a) <==> is_continuation_byte(b),
        is_leading_byte_width_1(a) <==> is_leading_byte_width_1(b),
        is_leading_byte_width_2(a) <==> is_leading_byte_width_2(b),
        is_leading_byte_width_3(a) <==> is_leading_byte_width_3(b),
        is_leading_byte_width_4(a) <==> is_leading_byte_width_4(b),
{
}

/// If the start of a valid UTF-8 sequence agrees, up to ASCII case, with a
/// whole valid UTF-8 sequence `q`, then the end of that part is a character
/// boundary.
proof fn lemma_boundary_after_prefix(s: Seq<u8>, q: Seq<u8>)
    requires
        valid_utf8(s),
        valid_utf8(q),
        q.len() <= s.len(),
        forall|k: int| 0 <= k < q.len() ==> fold_byte(#[trigger] s[k]) == fold_byte(q[k]),
    ensures
        is_char_boundary(s, q.len() as int),
    decreases q.len(),
{
    if q.len() > 0 {
        assert forall|k: int| 0 <= k < q.len() implies {
            &&& is_continuation_byte(#[trigger] s[k]) <==> is_continuation_byte(q[k])
            &&& is_leading_byte_width_1(s[k]) <==> is_leading_byte_width_1(q[k])
            &&& is_leading_byte_width_2(s[k]) <==> is_leading_byte_width_2(q[k])
            &&& is_leading_byte_width_3(s[k]) <==> is_leading_byte_width_3(q[k])
            &&& is_leading_byte_width_4(s[k]) <==> is_leading_byte_width_4(q[k])
        } by {
            lemma_fold_keeps_class(s[k], q[k]);
        }
        let w = length_of_first_scalar(q);
        assert(length_of_first_scalar(s) == w);
        let ps = pop_first_scalar(s);
        let pq = pop_first_scalar(q);
        assert forall|k: int| 0 <= k < pq.len() implies fold_byte(#[trigger] ps[k]) == fold_byte(
            pq[k],
        ) by {
            assert(ps[k] == s[k + w]);
            assert(pq[k] == q[k + w]);
        }
        lemma_boundary_after_prefix(ps, pq);
    }
}

/// Every match starts and ends on a character boundary of its line, so the
/// matched byte range is itself valid UTF-8 text.
pub proof fn lemma_matches_on_char_boundaries(query: Seq<char>, lines: Seq<Seq<char>>)
    requires
        lines_fit(lines),
    ensures
        ({
            let r = spec_find_matches(query, lines);
            forall|k: int|
                #![trigger r[k]]
                0 <= k < r.len() ==> {
                    let b = encode_utf8(lines[r[k].line as int]);
                    &&& is_char_boundary(b, r[k].start as int)
                    &&& is_char_boundary(b, r[k].end as int)
                }
        }),
{
    let r = spec_find_matches(query, lines);
    if query.len() > 0 {
        lemma_encode_nonempty(query);
        let fold = !is_case_sensitive(query);
        let q = encode_utf8(query);
        encode_utf8_valid_utf8(query);
        lemma_doc_matches(lines, needle_of(query), fold, lines.len() as int);
        assert forall|k: int| #![trigger r[k]] 0 <= k < r.len() implies {
            let b = encode_utf8(lines[r[k].line as int]);
            &&& is_char_boundary(b, r[k].start as int)
            &&& is_char_boundary(b, r[k].end as int)
        } by {
            let m = r[k];
            let b = encode_utf8(lines[m.line as int]);
            let st = m.start as int;
            let n = q.len() as int;
            encode_utf8_valid_utf8(lines[m.line as int]);
            assert forall|j: int| 0 <= j < n implies fold_byte(#[trigger] b[st + j]) == fold_byte(
                q[j],
            ) by {
                if fold {
                    assert(fold_bytes(b).subrange(st, st + n)[j] == fold_bytes(q)[j]);
                } else {
                    assert(b.subrange(st, st + n)[j] == q[j]);
                }
            }
            is_char_boundary_start_end_of_seq(q);
            is_char_boundary_iff_not_is_continuation_byte(q, 0);
            assert(fold_byte(b[st + 0]) == fold_byte(q[0]));
            lemma_fold_keeps_class(b[st], q[0]);
            is_char_boundary_iff_not_is_continuation_byte(b, st);
            let rest = b.subrange(st, b.len() as int);
            valid_utf8_split(b, st);
            assert forall|j: int| 0 <= j < n implies fold_byte(#[trigger] rest[j]) == fold_byte(
                q[j],
            ) by {
                assert(rest[j] == b[st + j]);
            }
            lemma_boundary_after_prefix(rest, q);
            if st + n == b.len() {
                is_char_boundary_start_end_of_seq(b);
            } else {
                is_char_boundary_iff_not_is_continuation_byte(rest, n);
                assert(rest[n] == b[st + n]);
                is_char_boundary_iff_not_is_continuation_byte(b, st + n);
            }
        }
    }
}

/// No occurrence is missed: every place where the query occurs on a line
/// (up to ASCII case when the search ignores case) lies inside a match on
/// that line, the one that starts there or an earlier one it overlaps.
pub proof fn lemma_no_occurrence_missed(query: Seq<char>, lines: Seq<Seq<char>>, l: int, p: int)
    requires
        lines_fit(lines),
        query.len() > 0,
        0 <= l < lines.len(),
        occurs_at(haystack(lines[l], !is_case_sensitive(query)), needle_of(query), p),
    ensures
        ({
            let r = spec_find_matches(query, lines);
            exists|k: int|
                0 <= k < r.len() && (#[trigger] r[k]).line == l && r[k].start <= p < r[k].end
        }),
{
    lemma_encode_nonempty(query);
    let fold = !is_case_sensitive(query);
    let needle = needle_of(query);
    lemma_doc_matches(lines, needle, fold, lines.len() as int);
    assert(spec_find_matches(query, lines) == doc_matches(lines, needle, fold, lines.len() as int));
}

/// The matches with every line number moved on by `off`.
pub open spec fn shift_lines(ms: Seq<Match>, off: int) -> Seq<Match> {
    ms.map_values(|m: Match| Match { line: (m.line + off) as usize, start: m.start, end: m.end })
}

/// The matches in the first `n` lines depend on those lines only.
proof fn lemma_doc_matches_prefix(
    l1: Seq<Seq<char>>,
    l2: Seq<Seq<char>>,
    needle: Seq<u8>,
    fold: bool,
    n: int,
)
    requires
        0 <= n <= l1.len(),
        n <= l2.len(),
        forall|i: int| 0 <= i < n ==> l1[i] == l2[i],
    ensures
        doc_matches(l1, needle, fold, n) == doc_matches(l2, needle, fold, n),
    decreases n,
{
    if n > 0 {
        lemma_doc_matches_prefix(l1, l2, needle, fold, n - 1);
        assert(l1[n - 1] == l2[n - 1]);
    }
}

/// Scanning a line under another line number gives the same matches with
/// the line number moved on.
proof fn lemma_scan_line_shift(line: int, off: int, hay: Seq<u8>, needle: Seq<u8>, pos: int)
    requires
        0 <= line,
        0 <= off,
        line + off <= usize::MAX,
    ensures
        scan_line(line + off, hay, needle, pos) == shift_lines(scan_line(line, hay, needle, pos), off),
    decreases hay.len() - pos,
{
    if needle.len() == 0 || pos < 0 || pos + needle.len() > hay.len() {
        assert(shift_lines(Seq::<Match>::empty(), off) =~= Seq::<Match>::empty());
    } else if occurs_at(hay, needle, pos) {
        lemma_scan_line_shift(line, off, hay, needle, pos + needle.len());
        let rest = scan_line(line, hay, needle, pos + needle.len());
        assert(shift_lines(seq![match_at(line, needle, pos)] + rest, off) =~= seq![
            match_at(line + off, needle, pos),
        ] + shift_lines(rest, off));
    } else {
        lemma_scan_line_shift(line, off, hay, needle, pos + 1);
    }
}

/// Searching `a` followed by `b`: the matches in `a`, then those in the
/// first `m` lines of `b` with their line numbers moved on by `a.len()`.
proof fn lemma_doc_matches_concat(
    a: Seq<Seq<char>>,
    b: Seq<Seq<char>>,
    needle: Seq<u8>,
    fold: bool,
    m: int,
)
    requires
        0 <= m <= b.len(),
        a.len() + b.len() <= usize::MAX,
    ensures
        doc_matches(a + b, needle, fold, a.len() + m) == doc_matches(a, needle, fold, a.len() as int)
            + shift_lines(doc_matches(b, needle, fold, m), a.len() as int),
    decreases m,
{
    if m == 0 {
        lemma_doc_matches_prefix(a + b, a, needle, fold, a.len() as int);
        assert(shift_lines(Seq::<Match>::empty(), a.len() as int) =~= Seq::<Match>::empty());
        assert(doc_matches(b, needle, fold, 0) == Seq::<Match>::empty());
        assert(doc_matches(a, needle, fold, a.len() as int) + Seq::<Match>::empty() =~= doc_matches(
            a,
            needle,
            fold,
            a.len() as int,
        ));
    } else {
        lemma_doc_matches_concat(a, b, needle, fold, m - 1);
        let h = haystack(b[m - 1], fold);
        assert((a + b)[a.len() + m - 1] == b[m - 1]);
        lemma_scan_line_shift(m - 1, a.len() as int, h, needle, 0);
        let prev = doc_matches(b, needle, fold, m - 1);
        let s = scan_line(m - 1, h, needle, 0);
        assert(shift_lines(prev + s, a.len() as int) =~= shift_lines(prev, a.len() as int)
            + shift_lines(s, a.len() as int));
        assert(doc_matches(a + b, needle, fold, a.len() + m) =~= doc_matches(
            a,
            needle,
            fold,
            a.len() as int,
        ) + shift_lines(doc_matches(b, needle, fold, m), a.len() as int));
    }
}

/// Lines are searched independently: searching two runs of lines one after
/// the other gives the matches in the first, then those in the second with
/// their line numbers moved on by the length of the first.
pub proof fn lemma_search_concat(query: Seq<char>, a: Seq<Seq<char>>, b: Seq<Seq<char>>)
    requires
        a.len() + b.len() <= usize::MAX,
    ensures
        spec_find_matches(query, a + b) == spec_find_matches(query, a) + shift_lines(
            spec_find_matches(query, b),
            a.len() as int,
        ),
{
    if query.len() == 0 {
        assert(shift_lines(Seq::<Match>::empty(), a.len() as int) =~= Seq::<Match>::empty());
        assert(Seq::<Match>::empty() + Seq::<Match>::empty() =~= Seq::<Match>::empty());
    } else {
        lemma_doc_matches_concat(
            a,
            b,
            needle_of(query),
            !is_case_sensitive(query),
            b.len() as int,
        );
    }
}

/// ASCII lowercase of one character; every other character is unchanged.
pub open spec fn lower_char(c: char) -> char {
    if is_ascii_upper(c) {
        ((c as u32) + 32) as char
    } else {
        c
    }
}

/// ASCII lowercase of a string (it keeps the length).
pub open spec fn to_ascii_lower(s: Seq<char>) -> Seq<char> {
    Seq::new(s.len(), |i: int| lower_char(s[i]))
}

proof fn lemma_high_bytes(y: u8)
    by (bit_vector)
    ensures
        (0x80u8 | y) >= 0x80u8,
        (0xC0u8 | y) >= 0x80u8,
        (0xE0u8 | y) >= 0x80u8,
        (0xF0u8 | y) >= 0x80u8,
{
}

/// Folding the encoding of one character gives the encoding of its ASCII
/// lowercase.
proof fn lemma_encode_lower_char(c: char)
    ensures
        encode_scalar(lower_char(c) as u32) == fold_bytes(encode_scalar(c as u32)),
{
    let v = c as u32;
    char_is_scalar(c);
    if has_width_1_encoding(v) {
        assert(((v & 0x7F) as u8) as u32 == v) by (bit_vector)
            requires
                v < 128,
        ;
        if is_ascii_upper(c) {
            let w = (v + 32) as u32;
            assert(lower_char(c) as u32 == w);
            assert(((w & 0x7F) as u8) as u32 == w) by (bit_vector)
                requires
                    w < 128,
            ;
        }
        assert(fold_bytes(encode_scalar(v)) =~= encode_scalar(lower_char(c) as u32));
    } else {
        assert(lower_char(c) == c);
        lemma_high_bytes(((v >> 6) & 0x1F) as u8);
        lemma_high_bytes(((v >> 12) & 0x0F) as u8);
        lemma_high_bytes(((v >> 18) & 0x7) as u8);
        lemma_high_bytes((v & 0x3F) as u8);
        lemma_high_bytes(((v >> 6) & 0x3F) as u8);
        lemma_high_bytes(((v >> 12) & 0x3F) as u8);
        assert(fold_bytes(encode_scalar(v)) =~= encode_scalar(v));
    }
}

/// Folding the encoding of a string gives the encoding of its ASCII
/// lowercase.
proof fn lemma_encode_lower(s: Seq<char>)
    ensures
        encode_utf8(to_ascii_lower(s)) == fold_bytes(encode_utf8(s)),
    decreases s.len(),
{
    if s.len() > 0 {
        lemma_encode_lower(s.drop_first());
        lemma_encode_lower_char(s[0]);
        assert(to_ascii_lower(s).drop_first() =~= to_ascii_lower(s.drop_first()));
        assert(to_ascii_lower(s)[0] == lower_char(s[0]));
        let e = encode_scalar(s[0] as u32);
        let r = encode_utf8(s.drop_first());
        assert(fold_bytes(e + r) =~= fold_bytes(e) + fold_bytes(r));
    } else {
        assert(fold_bytes(encode_utf8(s)) =~= Seq::<u8>::empty());
    }
}

/// Two runs of lines with the same haystacks give the same matches.
proof fn lemma_doc_matches_same_haystacks(
    l1: Seq<Seq<char>>,
    f1: bool,
    l2: Seq<Seq<char>>,
    f2: bool,
    needle: Seq<u8>,
    n: int,
)
    requires
        0 <= n <= l1.len(),
        n <= l2.len(),
        forall|i: int| 0 <= i < n ==> haystack(l1[i], f1) == haystack(l2[i], f2),
    ensures
        doc_matches(l1, needle, f1, n) == doc_matches(l2, needle, f2, n),
    decreases n,
{
    if n > 0 {
        lemma_doc_matches_same_haystacks(l1, f1, l2, f2, needle, n - 1);
        assert(haystack(l1[n - 1], f1) == haystack(l2[n - 1], f2));
    }
}

/// The search that ignores ASCII case is the exact search of the ASCII
/// lowercase query in the ASCII lowercase lines.
pub proof fn lemma_folded_search_is_lowercase_search(query: Seq<char>, lines: Seq<Seq<char>>)
    ensures
        doc_matches(lines, fold_bytes(encode_utf8(query)), true, lines.len() as int) == doc_matches(
            lines.map_values(|l: Seq<char>| to_ascii_lower(l)),
            encode_utf8(to_ascii_lower(query)),
            false,
            lines.len() as int,
        ),
{
    let lowered = lines.map_values(|l: Seq<char>| to_ascii_lower(l));
    lemma_encode_lower(query);
    assert forall|i: int| 0 <= i < lines.len() implies haystack(lines[i], true) == haystack(
        lowered[i],
        false,
    ) by {
        lemma_encode_lower(lines[i]);
    }
    lemma_doc_matches_same_haystacks(
        lines,
        true,
        lowered,
        false,
        fold_bytes(encode_utf8(query)),
        lines.len() as int,
    );
}

/// Smartcase: the search is case-sensitive exactly when some character of
/// the query, at any position, is an ASCII uppercase letter. Then every
/// match is an exact occurrence of the query's bytes, so text that equals
/// the query only up to case is not matched. Otherwise every occurrence up
/// to ASCII case, at any place of any line, lies inside a match.
pub proof fn lemma_smartcase(query: Seq<char>, lines: Seq<Seq<char>>)
    requires
        lines_fit(lines),
    ensures
        is_case_sensitive(query) <==> exists|i: int| 0 <= i < query.len() && 'A' <= #[trigger] query[i] && query[i] <= 'Z',
        (exists|i: int| 0 <= i < query.len() && 'A' <= #[trigger] query[i] && query[i] <= 'Z') ==> {
            let r = spec_find_matches(query, lines);
            forall|k: int|
                #![trigger r[k]]
                0 <= k < r.len() ==> encode_utf8(lines[r[k].line as int]).subrange(
                    r[k].start as int,
                    r[k].end as int,
                ) == encode_utf8(query)
        },
        (forall|i: int| 0 <= i < query.len() ==> !('A' <= #[trigger] query[i] && query[i] <= 'Z'))
            && query.len() > 0 ==> {
            let r = spec_find_matches(query, lines);
            let q = encode_utf8(query);
            forall|l: int, p: int|
                #![trigger encode_utf8(lines[l]).subrange(p, p + q.len())]
                0 <= l < lines.len() && 0 <= p && p + q.len() <= encode_utf8(lines[l]).len()
                    && fold_bytes(encode_utf8(lines[l]).subrange(p, p + q.len())) == fold_bytes(q)
                    ==> exists|k: int|
                    0 <= k < r.len() && (#[trigger] r[k]).line == l && r[k].start <= p < r[k].end
        },
{
    lemma_matches_are_occurrences(query, lines);
    if (forall|i: int| 0 <= i < query.len() ==> !('A' <= #[trigger] query[i] && query[i] <= 'Z'))
        && query.len() > 0 {
        let r = spec_find_matches(query, lines);
        let q = encode_utf8(query);
        assert(!is_case_sensitive(query));
        assert forall|l: int, p: int|
            #![trigger encode_utf8(lines[l]).subrange(p, p + q.len())]
            0 <= l < lines.len() && 0 <= p && p + q.len() <= encode_utf8(lines[l]).len()
                && fold_bytes(encode_utf8(lines[l]).subrange(p, p + q.len())) == fold_bytes(q)
                implies exists|k: int|
            0 <= k < r.len() && (#[trigger] r[k]).line == l && r[k].start <= p < r[k].end by {
            let b = encode_utf8(lines[l]);
            assert(fold_bytes(b).subrange(p, p + q.len()) =~= fold_bytes(
                b.subrange(p, p + q.len()),
            ));
            lemma_no_occurrence_missed(query, lines, l, p);
        }
    }
}

} // verus!
