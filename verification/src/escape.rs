//! Escaping of string values.
use crate::text::push_char;
use vstd::prelude::*;

verus! {

/// The characters that need a backslash in front of them: single quote,
/// double quote, backslash, newline and tab.
pub open spec fn is_special(c: char) -> bool {
    c == '\'' || c == '"' || c == '\\' || c == '\n' || c == '\t'
}

/// Whether `s` holds at least one special character.
pub open spec fn has_special(s: Seq<char>) -> bool {
    exists|i: int| 0 <= i < s.len() && is_special(#[trigger] s[i])
}

/// How many characters of `s` are special.
pub open spec fn special_count(s: Seq<char>) -> nat
    decreases s.len(),
{
    if s.len() == 0 {
        0
    } else if is_special(s.last()) {
        special_count(s.drop_last()) + 1
    } else {
        special_count(s.drop_last())
    }
}

/// `s` with a backslash inserted immediately before each special character;
/// every other character is kept as it is.
pub open spec fn escaped(s: Seq<char>) -> Seq<char>
    decreases s.len(),
{
    if s.len() == 0 {
        Seq::empty()
    } else if is_special(s.last()) {
        escaped(s.drop_last()).push('\\').push(s.last())
    } else {
        escaped(s.drop_last()).push(s.last())
    }
}

/// Escaping leaves a text without special characters as it is.
pub proof fn lemma_escaped_plain(s: Seq<char>)
    requires
        !has_special(s),
    ensures
        escaped(s) == s,
    decreases s.len(),
{
    if s.len() > 0 {
        let head = s.drop_last();
        assert(!is_special(s[s.len() - 1]));
        assert forall|i: int| 0 <= i < head.len() implies !is_special(#[trigger] head[i]) by {
            assert(head[i] == s[i]);
        }
        lemma_escaped_plain(head);
        assert(head.push(s.last()) =~= s);
    } else {
        assert(escaped(s) =~= s);
    }
}

/// Escaping lengthens a text by one character for each special character.
pub proof fn lemma_escaped_len(s: Seq<char>)
    ensures
        escaped(s).len() == s.len() + special_count(s),
    decreases s.len(),
{
    if s.len() > 0 {
        lemma_escaped_len(s.drop_last());
    }
}

/// Tells whether `c` is one of the special characters.
pub fn is_special_char(c: char) -> (special: bool)
    ensures
        special == is_special(c),
{
    c == '\'' || c == '"' || c == '\\' || c == '\n' || c == '\t'
}

/// Tells whether `value` holds a special character.
pub fn needs_escape(value: &str) -> (needed: bool)
    ensures
        needed == has_special(value@),
{
    for c in it: value.chars()
        invariant
            it.seq() == value@,
            forall|i: int| 0 <= i < it.index() ==> !is_special(#[trigger] value@[i]),
    {
        if is_special_char(c) {
            assert(is_special(value@[it.index() as int]));
            return true;
        }
    }
    false
}

/// Escapes `value`: a backslash goes in front of every quote, double quote,
/// backslash, newline and tab.
///
/// A value without any of these is copied without a second look at its
/// characters; the result is the same on either path.
pub fn escape_string(value: &str) -> (out: String)
    ensures
        out@ == escaped(value@),
        out@.len() == value@.len() + special_count(value@),
        !has_special(value@) ==> out@ == value@,
{
    proof {
        lemma_escaped_len(value@);
        if !has_special(value@) {
            lemma_escaped_plain(value@);
        }
    }
    if needs_escape(value) {
        let mut out = String::new();
        for c in it: value.chars()
            invariant
                it.seq() == value@,
                out@ == escaped(value@.take(it.index() as int)),
        {
            let ghost done = value@.take(it.index() as int);
            let ghost next = value@.take(it.index() + 1);
            assert(next.drop_last() =~= done);
            assert(next.last() == c);
            if is_special_char(c) {
                push_char(&mut out, '\\');
            }
            push_char(&mut out, c);
        }
        assert(value@.take(value@.len() as int) =~= value@);
        out
    } else {
        value.to_owned()
    }
}

} // verus!
