//! Character-level helpers shared by the formatters and the layout engine.
use std::cmp::Ordering;
use vstd::prelude::*;
use vstd::std_specs::iter::IteratorSpec;

verus! {

/// Appends one character to `text`.
///
/// Trusted: the body is a single call of `String::push`, which the standard
/// library documents as appending the given `char` to the end of the string.
/// The contract claims exactly that and nothing else.
#[verifier::external_body]
pub(crate) fn push_char(text: &mut String, c: char)
    ensures
        final(text)@ == old(text)@.push(c),
{
    text.push(c);
}

/// Strict lexicographic order on texts, character by character in the order
/// of the code points. A proper prefix sorts before the longer text.
pub open spec fn text_lt(a: Seq<char>, b: Seq<char>) -> bool
    decreases a.len(),
{
    if b.len() == 0 {
        false
    } else if a.len() == 0 {
        true
    } else if a[0] != b[0] {
        a[0] < b[0]
    } else {
        text_lt(a.drop_first(), b.drop_first())
    }
}

/// No text sorts before itself.
pub proof fn lemma_text_lt_irreflexive(a: Seq<char>)
    ensures
        !text_lt(a, a),
    decreases a.len(),
{
    if a.len() > 0 {
        lemma_text_lt_irreflexive(a.drop_first());
    }
}

/// Two texts are never each before the other.
pub proof fn lemma_text_lt_asymmetric(a: Seq<char>, b: Seq<char>)
    requires
        text_lt(a, b),
    ensures
        !text_lt(b, a),
    decreases a.len(),
{
    if a.len() > 0 && b.len() > 0 && a[0] == b[0] {
        lemma_text_lt_asymmetric(a.drop_first(), b.drop_first());
    }
}

/// The order is transitive.
pub proof fn lemma_text_lt_transitive(a: Seq<char>, b: Seq<char>, c: Seq<char>)
    requires
        text_lt(a, b),
        text_lt(b, c),
    ensures
        text_lt(a, c),
    decreases a.len(),
{
    if a.len() > 0 && b.len() > 0 && c.len() > 0 && a[0] == b[0] && b[0] == c[0] {
        lemma_text_lt_transitive(a.drop_first(), b.drop_first(), c.drop_first());
    }
}

/// Any two different texts are ordered one way or the other.
pub proof fn lemma_text_lt_total(a: Seq<char>, b: Seq<char>)
    ensures
        a == b || text_lt(a, b) || text_lt(b, a),
    decreases a.len(),
{
    if a.len() == 0 || b.len() == 0 {
        if a.len() == 0 && b.len() == 0 {
            assert(a =~= b);
        }
    } else if a[0] == b[0] {
        lemma_text_lt_total(a.drop_first(), b.drop_first());
        if a.drop_first() == b.drop_first() {
            assert(a =~= seq![a[0]] + a.drop_first());
            assert(b =~= seq![b[0]] + b.drop_first());
        }
    }
}

/// Compares two strings in the order of [`text_lt`].
pub fn compare_text(a: &str, b: &str) -> (o: Ordering)
    ensures
        (o == Ordering::Less) == text_lt(a@, b@),
        (o == Ordering::Equal) == (a@ == b@),
        (o == Ordering::Greater) == text_lt(b@, a@),
{
    let mut left = a.chars();
    let mut right = b.chars();
    let ghost mut i: int = 0;
    assert(a@.skip(0) =~= a@);
    assert(b@.skip(0) =~= b@);
    loop
        invariant
            left.decrease() is Some,
            0 <= i <= a@.len(),
            i <= b@.len(),
            left.remaining() == a@.skip(i),
            right.remaining() == b@.skip(i),
            text_lt(a@, b@) == text_lt(a@.skip(i), b@.skip(i)),
            text_lt(b@, a@) == text_lt(b@.skip(i), a@.skip(i)),
            (a@ == b@) == (a@.skip(i) == b@.skip(i)),
        decreases left.decrease()->0,
    {
        let ghost l = a@.skip(i);
        let ghost r = b@.skip(i);
        proof {
            lemma_text_lt_irreflexive(l);
            assert(l.len() > 0 ==> l.drop_first() =~= a@.skip(i + 1));
            assert(r.len() > 0 ==> r.drop_first() =~= b@.skip(i + 1));
            if l.len() > 0 && r.len() > 0 && l[0] == r[0] {
                assert(l =~= seq![l[0]] + l.drop_first());
                assert(r =~= seq![r[0]] + r.drop_first());
            }
            if l.len() == 0 && r.len() == 0 {
                assert(l =~= r);
            }
        }
        let x = left.next();
        let y = right.next();
        match (x, y) {
            (None, None) => {
                return Ordering::Equal;
            },
            (None, Some(_)) => {
                return Ordering::Less;
            },
            (Some(_), None) => {
                return Ordering::Greater;
            },
            (Some(p), Some(q)) => {
                if p < q {
                    proof {
                        lemma_text_lt_asymmetric(l, r);
                    }
                    return Ordering::Less;
                } else if q < p {
                    proof {
                        lemma_text_lt_asymmetric(r, l);
                    }
                    return Ordering::Greater;
                }
                proof {
                    i = i + 1;
                }
            },
        }
    }
}

/// Tells whether two strings hold the same characters.
pub fn same_text(a: &str, b: &str) -> (same: bool)
    ensures
        same == (a@ == b@),
{
    match compare_text(a, b) {
        Ordering::Equal => true,
        _ => false,
    }
}

} // verus!
