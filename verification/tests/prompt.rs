use textnav::prompt::PromptInput;

#[test]
fn new_is_empty() {
    let p = PromptInput::new();
    assert_eq!(p.query(), "");
}

#[test]
fn default_is_empty() {
    let p = PromptInput::default();
    assert_eq!(p.query(), "");
}

#[test]
fn push_builds_query_in_order() {
    let mut p = PromptInput::new();
    p.push('a');
    p.push('b');
    assert_eq!(p.query(), "ab");
}

#[test]
fn push_multiple_chars() {
    let mut p = PromptInput::new();
    for c in "hello".chars() {
        p.push(c);
    }
    assert_eq!(p.query(), "hello");
}

#[test]
fn backspace_removes_last_char() {
    let mut p = PromptInput::new();
    p.push('a');
    p.push('b');
    p.backspace();
    assert_eq!(p.query(), "a");
}

#[test]
fn backspace_on_empty_is_noop() {
    let mut p = PromptInput::new();
    p.backspace(); // must not panic
    assert_eq!(p.query(), "");
}

#[test]
fn backspace_empties_single_char_buffer() {
    let mut p = PromptInput::new();
    p.push('x');
    p.backspace();
    assert_eq!(p.query(), "");
}

#[test]
fn clear_empties_buffer() {
    let mut p = PromptInput::new();
    p.push('a');
    p.push('b');
    p.push('c');
    p.clear();
    assert_eq!(p.query(), "");
}

#[test]
fn clear_on_empty_is_noop() {
    let mut p = PromptInput::new();
    p.clear();
    assert_eq!(p.query(), "");
}

#[test]
fn query_reflects_current_buffer_after_operations() {
    let mut p = PromptInput::new();
    p.push('f');
    p.push('o');
    p.push('o');
    assert_eq!(p.query(), "foo");
    p.backspace();
    assert_eq!(p.query(), "fo");
    p.clear();
    assert_eq!(p.query(), "");
    p.push('z');
    assert_eq!(p.query(), "z");
}

#[test]
fn backspace_is_char_safe_with_multibyte() {
    // String::pop removes the last Unicode scalar, not a byte — verify correctness.
    let mut p = PromptInput::new();
    p.push('é'); // U+00E9, 2 UTF-8 bytes
    p.push('a');
    p.backspace();
    assert_eq!(p.query(), "é");
    p.backspace();
    assert_eq!(p.query(), "");
}

#[test]
fn backspace_right_after_push_restores_query() {
    let mut p = PromptInput::new();
    p.push('q');
    p.push('r');
    let before = p.query().to_string();
    p.push('s');
    p.backspace();
    assert_eq!(p.query(), before);
}

#[test]
fn clones_compare_equal() {
    let mut p = PromptInput::new();
    p.push('k');
    let q = p.clone();
    assert_eq!(p, q);
    assert_eq!(q.query(), "k");
}
