//! The order in which the children of a group are written.
use crate::model::Child;
use crate::text::{
    lemma_text_lt_asymmetric, lemma_text_lt_irreflexive, lemma_text_lt_total,
    lemma_text_lt_transitive, text_lt,
};
use vstd::prelude::*;
use vstd::seq_lib::{to_multiset_build, to_multiset_insert};

verus! {

/// The two tags that are written before every other child of their group:
/// the version of the format, and the embedded schema that later blocks are
/// decoded with.
pub open spec fn is_leading_tag(tag: Seq<char>) -> bool {
    tag == "ASAP2_VERSION"@ || tag == "A2ML"@
}

/// What a child is ordered by.
pub enum SortKey {
    /// The child carries a leading tag.
    Leading,
    /// The child comes from another file, named here.
    Included { file: Seq<char> },
    /// The child was read from the line given, which is not 0.
    Line { line: u32 },
    /// The child was made at run time and has no line; its tag decides.
    Synthesized { tag: Seq<char> },
}

/// The key of a child: leading tags first, then children from other files,
/// then children with a line, then those without.
pub open spec fn sort_key(child: Child) -> SortKey {
    if is_leading_tag(child.tag) {
        SortKey::Leading
    } else {
        match child.node.file {
            Some(file) => SortKey::Included { file },
            None => if child.node.line != 0 {
                SortKey::Line { line: child.node.line }
            } else {
                SortKey::Synthesized { tag: child.tag }
            },
        }
    }
}

/// The position of a kind of key among the four kinds.
pub open spec fn key_rank(key: SortKey) -> int {
    match key {
        SortKey::Leading => 0,
        SortKey::Included { .. } => 1,
        SortKey::Line { .. } => 2,
        SortKey::Synthesized { .. } => 3,
    }
}

/// The strict order of keys: by kind; within a kind by file name, by line,
/// or by tag. Two leading keys are equal.
pub open spec fn key_lt(a: SortKey, b: SortKey) -> bool {
    if key_rank(a) != key_rank(b) {
        key_rank(a) < key_rank(b)
    } else {
        match (a, b) {
            (SortKey::Included { file: x }, SortKey::Included { file: y }) => text_lt(x, y),
            (SortKey::Line { line: x }, SortKey::Line { line: y }) => x < y,
            (SortKey::Synthesized { tag: x }, SortKey::Synthesized { tag: y }) => text_lt(x, y),
            _ => false,
        }
    }
}

/// `a` may stand before `b`: the key of `b` is not smaller.
pub open spec fn child_le(a: Child, b: Child) -> bool {
    !key_lt(sort_key(b), sort_key(a))
}

/// No key is smaller than itself.
pub proof fn lemma_key_lt_irreflexive(a: SortKey)
    ensures
        !key_lt(a, a),
{
    match a {
        SortKey::Included { file } => lemma_text_lt_irreflexive(file),
        SortKey::Synthesized { tag } => lemma_text_lt_irreflexive(tag),
        _ => {},
    }
}

/// Two keys are never each smaller than the other.
pub proof fn lemma_key_lt_asymmetric(a: SortKey, b: SortKey)
    requires
        key_lt(a, b),
    ensures
        !key_lt(b, a),
{
    match (a, b) {
        (SortKey::Included { file: x }, SortKey::Included { file: y }) => {
            lemma_text_lt_asymmetric(x, y)
        },
        (SortKey::Synthesized { tag: x }, SortKey::Synthesized { tag: y }) => {
            lemma_text_lt_asymmetric(x, y)
        },
        _ => {},
    }
}

/// The order of keys is transitive.
pub proof fn lemma_key_lt_transitive(a: SortKey, b: SortKey, c: SortKey)
    requires
        key_lt(a, b),
        key_lt(b, c),
    ensures
        key_lt(a, c),
{
    match (a, b, c) {
        (
            SortKey::Included { file: x },
            SortKey::Included { file: y },
            SortKey::Included { file: z },
        ) => lemma_text_lt_transitive(x, y, z),
        (
            SortKey::Synthesized { tag: x },
            SortKey::Synthesized { tag: y },
            SortKey::Synthesized { tag: z },
        ) => lemma_text_lt_transitive(x, y, z),
        _ => {},
    }
}

/// Two different keys are ordered one way or the other.
pub proof fn lemma_key_lt_total(a: SortKey, b: SortKey)
    ensures
        a == b || key_lt(a, b) || key_lt(b, a),
{
    match (a, b) {
        (SortKey::Included { file: x }, SortKey::Included { file: y }) => {
            lemma_text_lt_total(x, y)
        },
        (SortKey::Synthesized { tag: x }, SortKey::Synthesized { tag: y }) => {
            lemma_text_lt_total(x, y)
        },
        _ => {},
    }
}

/// [`child_le`] is a total preorder: any two children compare, and the
/// relation is transitive.
pub proof fn lemma_child_le_total_preorder(a: Child, b: Child, c: Child)
    ensures
        child_le(a, a),
        child_le(a, b) || child_le(b, a),
        child_le(a, b) && child_le(b, c) ==> child_le(a, c),
{
    let (ka, kb, kc) = (sort_key(a), sort_key(b), sort_key(c));
    lemma_key_lt_irreflexive(ka);
    if key_lt(kb, ka) {
        lemma_key_lt_asymmetric(kb, ka);
    }
    if child_le(a, b) && child_le(b, c) && key_lt(kc, ka) {
        lemma_key_lt_total(ka, kb);
        if key_lt(ka, kb) {
            lemma_key_lt_transitive(kc, ka, kb);
        }
    }
}

/// Whether every child of `s` may stand before all that follow it.
pub open spec fn ordered(s: Seq<Child>) -> bool {
    forall|i: int, j: int| 0 <= i <= j < s.len() ==> child_le(s[i], s[j])
}

/// Where `c` goes into `s`: behind the last child that may stand before it.
pub open spec fn insert_index(s: Seq<Child>, c: Child) -> int
    decreases s.len(),
{
    if s.len() == 0 || child_le(s.last(), c) {
        s.len() as int
    } else {
        insert_index(s.drop_last(), c)
    }
}

/// The children of a group in the order in which they are written: sorted
/// by [`sort_key`], children with equal keys in the order in which they
/// were added.
///
/// The children are taken one by one in the order in which they were
/// added, and each goes to its [`insert_index`] among those before it.
pub open spec fn sorted_children(s: Seq<Child>) -> Seq<Child>
    decreases s.len(),
{
    if s.len() == 0 {
        s
    } else {
        let head = sorted_children(s.drop_last());
        head.insert(insert_index(head, s.last()), s.last())
    }
}

/// The test for the key `key`.
pub open spec fn has_key(key: SortKey) -> spec_fn(Child) -> bool {
    |c: Child| sort_key(c) == key
}

/// The children of `s` that have the key `key`, in their order in `s`.
pub open spec fn with_key(s: Seq<Child>, key: SortKey) -> Seq<Child> {
    s.filter(has_key(key))
}

/// What it is to be the written order of `given`: ordered by key, and for
/// every key the children with that key in the order in which they are in
/// `given`. Nothing is lost or made up, and equal keys keep their order.
pub open spec fn is_stable_sort_of(out: Seq<Child>, given: Seq<Child>) -> bool {
    &&& ordered(out)
    &&& forall|key: SortKey| #[trigger] with_key(out, key) == with_key(given, key)
}

/// [`insert_index`] lies behind a child that may stand before `c`, or at
/// the front, and every child from there on must stand behind `c`.
pub proof fn lemma_insert_index(s: Seq<Child>, c: Child)
    ensures
        0 <= insert_index(s, c) <= s.len(),
        insert_index(s, c) > 0 ==> child_le(s[insert_index(s, c) - 1], c),
        forall|k: int| insert_index(s, c) <= k < s.len() ==> !child_le(#[trigger] s[k], c),
    decreases s.len(),
{
    if !(s.len() == 0 || child_le(s.last(), c)) {
        let head = s.drop_last();
        lemma_insert_index(head, c);
        assert forall|k: int| insert_index(s, c) <= k < s.len() implies !child_le(
            #[trigger] s[k],
            c,
        ) by {
            if k < head.len() {
                assert(s[k] == head[k]);
            }
        }
        if insert_index(s, c) > 0 {
            assert(s[insert_index(s, c) - 1] == head[insert_index(head, c) - 1]);
        }
    }
}

/// Putting a child at its [`insert_index`] keeps an ordered sequence
/// ordered.
pub proof fn lemma_insert_keeps_order(s: Seq<Child>, c: Child)
    requires
        ordered(s),
    ensures
        ordered(s.insert(insert_index(s, c), c)),
{
    let at = insert_index(s, c);
    let t = s.insert(at, c);
    lemma_insert_index(s, c);
    assert forall|i: int, j: int| 0 <= i <= j < t.len() implies child_le(t[i], t[j]) by {
        lemma_child_le_total_preorder(c, c, c);
        if i == at && j == at {
        } else if i == at {
            assert(t[j] == s[j - 1]);
            assert(!child_le(s[j - 1], c));
            lemma_key_lt_asymmetric(sort_key(c), sort_key(s[j - 1]));
        } else if j == at {
            assert(t[i] == s[i]);
            assert(child_le(s[i], s[at - 1]));
            lemma_child_le_total_preorder(s[i], s[at - 1], c);
        } else {
            let si = if i < at { i } else { i - 1 };
            let sj = if j < at { j } else { j - 1 };
            assert(t[i] == s[si] && t[j] == s[sj]);
            assert(child_le(s[si], s[sj]));
        }
    }
}

/// The written order is ordered by key.
pub proof fn lemma_sorted_children_ordered(s: Seq<Child>)
    ensures
        ordered(sorted_children(s)),
        sorted_children(s).len() == s.len(),
    decreases s.len(),
{
    if s.len() > 0 {
        let head = sorted_children(s.drop_last());
        lemma_sorted_children_ordered(s.drop_last());
        lemma_insert_index(head, s.last());
        lemma_insert_keeps_order(head, s.last());
    }
}

/// The written order holds the same children, each as often as before.
pub proof fn lemma_sorted_children_permutes(s: Seq<Child>)
    ensures
        sorted_children(s).to_multiset() == s.to_multiset(),
    decreases s.len(),
{
    if s.len() > 0 {
        let head = sorted_children(s.drop_last());
        lemma_sorted_children_permutes(s.drop_last());
        lemma_insert_index(head, s.last());
        to_multiset_insert(head, insert_index(head, s.last()), s.last());
        to_multiset_build(s.drop_last(), s.last());
        assert(s.drop_last().push(s.last()) =~= s);
    }
}

/// Sorting is stable: the children with one key stand in the written order
/// as they stood when they were added.
pub proof fn lemma_sorted_children_stable(s: Seq<Child>, key: SortKey)
    ensures
        with_key(sorted_children(s), key) == with_key(s, key),
    decreases s.len(),
{
    let pred = has_key(key);
    if s.len() > 0 {
        let c = s.last();
        let head = sorted_children(s.drop_last());
        let at = insert_index(head, c);
        lemma_sorted_children_stable(s.drop_last(), key);
        lemma_insert_index(head, c);
        let front = head.subrange(0, at);
        let back = head.subrange(at, head.len() as int);
        assert(head =~= front + back);
        assert(head.insert(at, c) =~= front.push(c) + back);
        Seq::filter_distributes_over_add(front, back, pred);
        Seq::filter_distributes_over_add(front.push(c), back, pred);
        front.lemma_filter_push(c, pred);
        s.drop_last().lemma_filter_push(c, pred);
        assert(s.drop_last().push(c) =~= s);
        if pred(c) {
            assert forall|k: int| 0 <= k < back.len() implies !pred(#[trigger] back[k]) by {
                assert(back[k] == head[at + k]);
                assert(!child_le(head[at + k], c));
                lemma_key_lt_irreflexive(key);
            }
            assert(back.all(|x: Child| !pred(x)));
            back.lemma_all_neg_filter_empty(pred);
            assert(back.filter(pred) =~= Seq::empty());
            assert(front.filter(pred) + back.filter(pred) =~= front.filter(pred));
            assert(front.filter(pred).push(c) + back.filter(pred) =~= front.filter(pred).push(c));
        }
    } else {
        assert(sorted_children(s) =~= s);
    }
}

/// [`sorted_children`] is a stable sort.
pub proof fn lemma_sorted_children_is_stable_sort(s: Seq<Child>)
    ensures
        is_stable_sort_of(sorted_children(s), s),
{
    lemma_sorted_children_ordered(s);
    assert forall|key: SortKey| #[trigger]
        with_key(sorted_children(s), key) == with_key(s, key) by {
        lemma_sorted_children_stable(s, key);
    }
}

/// The children with a key, after one more child.
pub proof fn lemma_with_key_push(s: Seq<Child>, c: Child, key: SortKey)
    ensures
        with_key(s.push(c), key) == if sort_key(c) == key {
            with_key(s, key).push(c)
        } else {
            with_key(s, key)
        },
{
    s.lemma_filter_push(c, has_key(key));
}

/// Where no child has the key, there are no children with the key.
pub proof fn lemma_with_key_none(s: Seq<Child>, key: SortKey)
    requires
        forall|k: int| 0 <= k < s.len() ==> sort_key(#[trigger] s[k]) != key,
    ensures
        with_key(s, key) == Seq::<Child>::empty(),
    decreases s.len(),
{
    if s.len() > 0 {
        let head = s.drop_last();
        assert forall|k: int| 0 <= k < head.len() implies sort_key(#[trigger] head[k]) != key by {
            assert(head[k] == s[k]);
        }
        lemma_with_key_none(head, key);
        lemma_with_key_push(head, s.last(), key);
        assert(head.push(s.last()) =~= s);
        assert(sort_key(s[s.len() - 1]) != key);
    } else {
        s.lemma_filter_len(has_key(key));
        assert(with_key(s, key) =~= Seq::<Child>::empty());
    }
}

/// A key that is smaller than another is smaller than every key that is
/// not smaller than that one.
pub proof fn lemma_key_lt_then_le(a: SortKey, b: SortKey, c: SortKey)
    requires
        key_lt(a, b),
        !key_lt(c, b),
    ensures
        key_lt(a, c),
{
    lemma_key_lt_total(b, c);
    if key_lt(b, c) {
        lemma_key_lt_transitive(a, b, c);
    }
}

/// Merging two runs, the next child is taken from the left run: if every
/// child taken from the right run so far has a smaller key, the children
/// with one key are still those of the left run followed by those of the
/// right run.
pub proof fn lemma_merge_takes_left(
    done: Seq<Child>,
    left: Seq<Child>,
    right: Seq<Child>,
    i: int,
    j: int,
    key: SortKey,
)
    requires
        0 <= i < left.len(),
        0 <= j <= right.len(),
        with_key(done, key) == with_key(left.take(i), key) + with_key(right.take(j), key),
        forall|k: int| 0 <= k < j ==> key_lt(sort_key(#[trigger] right[k]), sort_key(left[i])),
    ensures
        with_key(done.push(left[i]), key) == with_key(left.take(i + 1), key) + with_key(
            right.take(j),
            key,
        ),
{
    let c = left[i];
    lemma_with_key_push(done, c, key);
    lemma_with_key_push(left.take(i), c, key);
    assert(left.take(i).push(c) =~= left.take(i + 1));
    if sort_key(c) == key {
        lemma_key_lt_irreflexive(key);
        assert forall|k: int| 0 <= k < right.take(j).len() implies sort_key(
            #[trigger] right.take(j)[k],
        ) != key by {
            assert(right.take(j)[k] == right[k]);
        }
        lemma_with_key_none(right.take(j), key);
        assert(with_key(left.take(i), key).push(c) + with_key(right.take(j), key) =~= (with_key(
            left.take(i),
            key,
        ) + with_key(right.take(j), key)).push(c));
    }
}

/// Merging two runs, the next child is taken from the right run: the
/// children with one key are still those of the left run followed by those
/// of the right run.
pub proof fn lemma_merge_takes_right(
    done: Seq<Child>,
    left: Seq<Child>,
    right: Seq<Child>,
    i: int,
    j: int,
    key: SortKey,
)
    requires
        0 <= i <= left.len(),
        0 <= j < right.len(),
        with_key(done, key) == with_key(left.take(i), key) + with_key(right.take(j), key),
    ensures
        with_key(done.push(right[j]), key) == with_key(left.take(i), key) + with_key(
            right.take(j + 1),
            key,
        ),
{
    let c = right[j];
    lemma_with_key_push(done, c, key);
    lemma_with_key_push(right.take(j), c, key);
    assert(right.take(j).push(c) =~= right.take(j + 1));
    if sort_key(c) == key {
        assert(with_key(left.take(i), key) + with_key(right.take(j), key).push(c) =~= (with_key(
            left.take(i),
            key,
        ) + with_key(right.take(j), key)).push(c));
    }
}

/// Two ordered sequences that agree, key by key, on the children with that
/// key are the same sequence.
pub proof fn lemma_ordered_unique(a: Seq<Child>, b: Seq<Child>)
    requires
        ordered(a),
        ordered(b),
        forall|key: SortKey| #[trigger] with_key(a, key) == with_key(b, key),
    ensures
        a == b,
    decreases a.len(),
{
    if a.len() == 0 {
        if b.len() > 0 {
            let y = b.last();
            lemma_with_key_push(b.drop_last(), y, sort_key(y));
            assert(b.drop_last().push(y) =~= b);
            a.lemma_filter_len(has_key(sort_key(y)));
            assert(with_key(a, sort_key(y)) == with_key(b, sort_key(y)));
        }
        assert(a =~= b);
    } else {
        let x = a.last();
        let k = sort_key(x);
        let a0 = a.drop_last();
        assert(a0.push(x) =~= a);
        lemma_with_key_push(a0, x, k);
        assert(with_key(a, k) == with_key(b, k));
        if b.len() == 0 {
            b.lemma_filter_len(has_key(k));
        }
        let y = b.last();
        let k2 = sort_key(y);
        let b0 = b.drop_last();
        assert(b0.push(y) =~= b);
        lemma_with_key_push(b0, y, k2);
        assert(with_key(a, k2) == with_key(b, k2));
        // each sequence holds the last child of the other
        assert(with_key(b, k2).last() == y);
        assert(with_key(a, k2).contains(y)) by {
            assert(with_key(a, k2)[with_key(a, k2).len() - 1] == y);
        }
        a.lemma_filter_contains_rev(has_key(k2), y);
        let iy = choose|iy: int| 0 <= iy < a.len() && a[iy] == y;
        assert(child_le(a[iy], a[a.len() - 1]));
        assert(with_key(a, k).last() == x);
        assert(with_key(b, k).contains(x)) by {
            assert(with_key(b, k)[with_key(b, k).len() - 1] == x);
        }
        b.lemma_filter_contains_rev(has_key(k), x);
        let ix = choose|ix: int| 0 <= ix < b.len() && b[ix] == x;
        assert(child_le(b[ix], b[b.len() - 1]));
        lemma_key_lt_total(k, k2);
        assert(k == k2);
        assert(with_key(a0, k).push(x) == with_key(b0, k).push(y));
        assert(with_key(a0, k).push(x).last() == x);
        assert(with_key(b0, k).push(y).last() == y);
        assert(x == y);
        assert forall|key: SortKey| #[trigger] with_key(a0, key) == with_key(b0, key) by {
            lemma_with_key_push(a0, x, key);
            lemma_with_key_push(b0, y, key);
            assert(with_key(a, key) == with_key(b, key));
            if key == k {
                assert(with_key(a0, key).push(x).drop_last() =~= with_key(a0, key));
                assert(with_key(b0, key).push(y).drop_last() =~= with_key(b0, key));
            }
        }
        assert forall|i: int, j: int| 0 <= i <= j < a0.len() implies child_le(a0[i], a0[j]) by {
            assert(child_le(a[i], a[j]));
        }
        assert forall|i: int, j: int| 0 <= i <= j < b0.len() implies child_le(b0[i], b0[j]) by {
            assert(child_le(b[i], b[j]));
        }
        lemma_ordered_unique(a0, b0);
    }
}

/// There is one stable sort: whatever is a stable sort of `given` is
/// [`sorted_children`] of it.
pub proof fn lemma_stable_sort_unique(out: Seq<Child>, given: Seq<Child>)
    requires
        is_stable_sort_of(out, given),
    ensures
        out == sorted_children(given),
{
    lemma_sorted_children_is_stable_sort(given);
    assert forall|key: SortKey| #[trigger]
        with_key(out, key) == with_key(sorted_children(given), key) by {
        assert(with_key(out, key) == with_key(given, key));
        assert(with_key(sorted_children(given), key) == with_key(given, key));
    }
    lemma_ordered_unique(out, sorted_children(given));
}

/// Two halves sorted and then merged are the whole sorted: a sequence that
/// is ordered and holds, key by key, the children of the sorted left half
/// followed by those of the sorted right half, is the written order of the
/// two halves one after the other.
pub proof fn lemma_merged_is_sorted(out: Seq<Child>, left: Seq<Child>, right: Seq<Child>)
    requires
        ordered(out),
        forall|key: SortKey| #[trigger]
            with_key(out, key) == with_key(sorted_children(left), key) + with_key(
                sorted_children(right),
                key,
            ),
    ensures
        out == sorted_children(left + right),
{
    assert forall|key: SortKey| #[trigger] with_key(out, key) == with_key(left + right, key) by {
        lemma_sorted_children_stable(left, key);
        lemma_sorted_children_stable(right, key);
        Seq::filter_distributes_over_add(left, right, has_key(key));
    }
    lemma_stable_sort_unique(out, left + right);
}

/// Among the children that are ordered by their line, the lines never
/// decrease in the written order.
pub proof fn lemma_sorted_children_lines(s: Seq<Child>, i: int, j: int)
    requires
        0 <= i <= j < s.len(),
        sort_key(sorted_children(s)[i]) is Line,
        sort_key(sorted_children(s)[j]) is Line,
    ensures
        sorted_children(s)[i].node.line <= sorted_children(s)[j].node.line,
{
    lemma_sorted_children_ordered(s);
    let written = sorted_children(s);
    assert(child_le(written[i], written[j]));
}

/// What holds of every child holds of every child in the written order.
pub proof fn lemma_sorted_children_keeps(s: Seq<Child>, p: spec_fn(Child) -> bool)
    requires
        forall|i: int| 0 <= i < s.len() ==> p(#[trigger] s[i]),
    ensures
        sorted_children(s).len() == s.len(),
        forall|i: int| 0 <= i < s.len() ==> p(#[trigger] sorted_children(s)[i]),
    decreases s.len(),
{
    if s.len() > 0 {
        let head = sorted_children(s.drop_last());
        assert forall|i: int| 0 <= i < s.drop_last().len() implies p(
            #[trigger] s.drop_last()[i],
        ) by {
            assert(s.drop_last()[i] == s[i]);
        }
        lemma_sorted_children_keeps(s.drop_last(), p);
        lemma_insert_index(head, s.last());
        let at = insert_index(head, s.last());
        let t = head.insert(at, s.last());
        assert(p(s[s.len() - 1]));
        assert forall|i: int| 0 <= i < s.len() implies p(#[trigger] t[i]) by {
            if i < at {
                assert(t[i] == head[i]);
            } else if i > at {
                assert(t[i] == head[i - 1]);
            }
        }
    }
}

/// A change of the children that keeps their keys does not change their
/// order: sorting the changed children gives the sorted children, changed.
pub proof fn lemma_sorted_children_map(s: Seq<Child>, f: spec_fn(Child) -> Child)
    requires
        forall|c: Child| sort_key(#[trigger] f(c)) == sort_key(c),
    ensures
        sorted_children(s.map_values(f)) == sorted_children(s).map_values(f),
    decreases s.len(),
{
    if s.len() > 0 {
        let c = s.last();
        let head = sorted_children(s.drop_last());
        lemma_sorted_children_map(s.drop_last(), f);
        assert(s.map_values(f).drop_last() =~= s.drop_last().map_values(f));
        assert(s.map_values(f).last() == f(c));
        lemma_insert_index(head, c);
        lemma_insert_index_map(head, c, f);
        let at = insert_index(head, c);
        assert(head.map_values(f).insert(at, f(c)) =~= head.insert(at, c).map_values(f));
    } else {
        assert(s.map_values(f) =~= Seq::empty());
        assert(sorted_children(s).map_values(f) =~= Seq::empty());
    }
}

/// A change that keeps the keys keeps every [`insert_index`].
pub proof fn lemma_insert_index_map(s: Seq<Child>, c: Child, f: spec_fn(Child) -> Child)
    requires
        forall|x: Child| sort_key(#[trigger] f(x)) == sort_key(x),
    ensures
        insert_index(s.map_values(f), f(c)) == insert_index(s, c),
    decreases s.len(),
{
    if s.len() > 0 {
        assert(s.map_values(f).last() == f(s.last()));
        assert(s.map_values(f).drop_last() =~= s.drop_last().map_values(f));
        if !child_le(s.last(), c) {
            lemma_insert_index_map(s.drop_last(), c, f);
        }
    }
}

/// A leading child that was added before every other leading child is the
/// first in the written order.
pub proof fn lemma_first_leading_stays_first(s: Seq<Child>, i: int)
    requires
        0 <= i < s.len(),
        is_leading_tag(s[i].tag),
        forall|j: int| 0 <= j < i ==> !is_leading_tag(#[trigger] s[j].tag),
    ensures
        sorted_children(s).len() == s.len(),
        sorted_children(s)[0] == s[i],
    decreases s.len(),
{
    let c = s.last();
    let head = sorted_children(s.drop_last());
    let at = insert_index(head, c);
    lemma_sorted_children_ordered(s);
    lemma_sorted_children_ordered(s.drop_last());
    lemma_insert_index(head, c);
    if i < s.len() - 1 {
        assert(s.drop_last()[i] == s[i]);
        assert forall|j: int| 0 <= j < i implies !is_leading_tag(
            #[trigger] s.drop_last()[j].tag,
        ) by {
            assert(s.drop_last()[j] == s[j]);
        }
        lemma_first_leading_stays_first(s.drop_last(), i);
        if at == 0 {
            assert(!child_le(head[0], c));
        }
    } else {
        let later = |x: Child| !is_leading_tag(x.tag);
        assert forall|j: int| 0 <= j < s.drop_last().len() implies later(
            #[trigger] s.drop_last()[j],
        ) by {
            assert(s.drop_last()[j] == s[j]);
        }
        lemma_sorted_children_keeps(s.drop_last(), later);
        if at > 0 {
            assert(later(head[at - 1]));
            assert(child_le(head[at - 1], c));
        }
    }
}

} // verus!
