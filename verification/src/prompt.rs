//! A single-line query buffer for keyboard-driven text entry.
//!
//! The buffer is modelled by the sequence of characters it holds; each
//! operation states exactly how that sequence changes.
use vstd::prelude::*;

verus! {

/// The query after `c` was typed.
pub open spec fn typed(q: Seq<char>, c: char) -> Seq<char> {
    q.push(c)
}

/// The query after a backspace: the last character is gone, and an empty
/// query stays empty.
pub open spec fn erased(q: Seq<char>) -> Seq<char> {
    if q.len() == 0 {
        q
    } else {
        q.drop_last()
    }
}

/// Appends a character to a `String` (std's `String::push`).
#[verifier::external_body]
fn string_push(s: &mut String, c: char)
    ensures
        final(s)@ == old(s)@.push(c),
{
    s.push(c);
}

/// Removes the last character of a `String` (std's `String::pop`): `None`
/// and no change on an empty string, else the last character, which leaves.
#[verifier::external_body]
fn string_pop(s: &mut String) -> (r: Option<char>)
    ensures
        old(s)@.len() == 0 ==> r is None && final(s)@ == old(s)@,
        old(s)@.len() > 0 ==> r == Some(old(s)@.last()) && final(s)@ == old(s)@.drop_last(),
{
    s.pop()
}

/// Empties a `String` (std's `String::clear`).
#[verifier::external_body]
fn string_clear(s: &mut String)
    ensures
        final(s)@ == Seq::<char>::empty(),
{
    s.clear();
}

/// A single-line, append/backspace text buffer used for query entry.
///
/// No cursor-in-the-middle editing, no history, no persistence.
#[derive(Debug, Clone, PartialEq, Eq)]
pub struct PromptInput {
    query: String,
}

impl View for PromptInput {
    type V = Seq<char>;

    closed spec fn view(&self) -> Seq<char> {
        self.query@
    }
}

impl PromptInput {
    /// Returns an empty `PromptInput`.
    pub fn new() -> (p: Self)
        ensures
            p@ == Seq::<char>::empty(),
    {
        PromptInput { query: String::new() }
    }

    /// Appends `c` to the query buffer.
    pub fn push(&mut self, c: char)
        ensures
            final(self)@ == typed(old(self)@, c),
    {
        string_push(&mut self.query, c);
    }

    /// Removes the last character from the query buffer; no-op when the
    /// buffer is already empty.
    pub fn backspace(&mut self)
        ensures
            final(self)@ == erased(old(self)@),
    {
        let _ = string_pop(&mut self.query);
    }

    /// Empties the query buffer.
    pub fn clear(&mut self)
        ensures
            final(self)@ == Seq::<char>::empty(),
    {
        string_clear(&mut self.query);
    }

    /// Returns the current query string.
    pub fn query(&self) -> (q: &str)
        ensures
            q@ == self@,
    {
        self.query.as_str()
    }
}

impl Default for PromptInput {
    fn default() -> (p: Self)
        ensures
            p@ == Seq::<char>::empty(),
    {
        PromptInput::new()
    }
}

/// A backspace right after typing a character gives back the query as it
/// was before the character was typed.
pub proof fn lemma_erase_undoes_type(q: Seq<char>, c: char)
    ensures
        erased(typed(q, c)) == q,
{
    assert(q.push(c).drop_last() =~= q);
}

/// Typing characters one after another appends them in order: the query
/// after typing `cs` into `q` is `q + cs`.
pub open spec fn typed_all(q: Seq<char>, cs: Seq<char>) -> Seq<char>
    decreases cs.len(),
{
    if cs.len() == 0 {
        q
    } else {
        typed(typed_all(q, cs.drop_last()), cs.last())
    }
}

/// Typing a sequence of characters appends exactly that sequence.
pub proof fn lemma_typed_all_appends(q: Seq<char>, cs: Seq<char>)
    ensures
        typed_all(q, cs) == q + cs,
    decreases cs.len(),
{
    if cs.len() > 0 {
        lemma_typed_all_appends(q, cs.drop_last());
        assert((q + cs.drop_last()).push(cs.last()) =~= q + cs);
    }
}

/// Erasing an empty query leaves it empty, and erasing never lengthens it.
pub proof fn lemma_erase_shortens(q: Seq<char>)
    ensures
        erased(q).len() == if q.len() == 0 { 0 } else { q.len() - 1 },
        erased(q) == q.subrange(0, erased(q).len() as int),
{
    assert(erased(q) =~= q.subrange(0, erased(q).len() as int));
}

} // verus!
