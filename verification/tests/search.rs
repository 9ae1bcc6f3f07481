use textnav::search::{find_matches, Match};

fn lines(v: &[&str]) -> Vec<String> {
    v.iter().map(|s| s.to_string()).collect()
}

fn m(line: usize, start: usize, end: usize) -> Match {
    Match { line, start, end }
}

#[test]
fn empty_query_finds_nothing() {
    assert_eq!(find_matches("", &lines(&["abc", ""])), vec![]);
}

#[test]
fn no_occurrence_finds_nothing() {
    assert_eq!(find_matches("zzz", &lines(&["abc", "def"])), vec![]);
}

#[test]
fn lowercase_query_ignores_ascii_case() {
    let found = find_matches("foo", &lines(&["Foo bar FOO", "fOo"]));
    assert_eq!(found, vec![m(0, 0, 3), m(0, 8, 11), m(1, 0, 3)]);
}

#[test]
fn uppercase_letter_makes_query_case_sensitive() {
    let found = find_matches("Foo", &lines(&["foo Foo FOO"]));
    assert_eq!(found, vec![m(0, 4, 7)]);
}

#[test]
fn matches_do_not_overlap() {
    let found = find_matches("aa", &lines(&["aaaaa"]));
    assert_eq!(found, vec![m(0, 0, 2), m(0, 2, 4)]);
}

#[test]
fn matches_come_in_document_order() {
    let found = find_matches("x", &lines(&["axbx", "", "x"]));
    assert_eq!(found, vec![m(0, 1, 2), m(0, 3, 4), m(2, 0, 1)]);
}

#[test]
fn offsets_are_byte_offsets_on_char_boundaries() {
    let text = lines(&["héllo wörld"]);
    let found = find_matches("w", &text);
    assert_eq!(found, vec![m(0, 7, 8)]);
    let found = find_matches("ö", &text);
    assert_eq!(found, vec![m(0, 8, 10)]);
    assert_eq!(&text[0][found[0].start..found[0].end], "ö");
}

#[test]
fn non_ascii_letters_compare_exactly() {
    let found = find_matches("é", &lines(&["É é"]));
    assert_eq!(found, vec![m(0, 3, 5)]);
}

#[test]
fn regex_metacharacters_are_literal() {
    let found = find_matches(".*", &lines(&["a.*b", "ab"]));
    assert_eq!(found, vec![m(0, 1, 3)]);
}

#[test]
fn query_longer_than_line_finds_nothing() {
    assert_eq!(find_matches("abcdef", &lines(&["abc"])), vec![]);
}

#[test]
fn overlapping_occurrence_is_covered_by_earlier_match() {
    // "aba" occurs at 0 and 2; the one at 2 overlaps the first and is skipped.
    let found = find_matches("aba", &lines(&["ababa"]));
    assert_eq!(found, vec![m(0, 0, 3)]);
}

#[test]
fn lines_are_searched_independently() {
    let a = lines(&["foo", "xfoo"]);
    let b = lines(&["FOO foo"]);
    let ab: Vec<String> = a.iter().chain(b.iter()).cloned().collect();
    let mut expected = find_matches("foo", &a);
    expected.extend(
        find_matches("foo", &b).into_iter().map(|x| Match { line: x.line + a.len(), ..x }),
    );
    assert_eq!(find_matches("foo", &ab), expected);
}

#[test]
fn ignoring_case_equals_exact_search_of_lowercase_text() {
    let text = lines(&["Straße STRASSE strasse", "ÉcOle"]);
    let lowered: Vec<String> = text.iter().map(|l| l.to_ascii_lowercase()).collect();
    assert_eq!(find_matches("strasse", &text), find_matches("strasse", &lowered));
    assert_eq!(find_matches("cole", &text), vec![m(1, 2, 6)]);
}
