//! What holds of every rendered tree.
use crate::layout::{
    arranged, child_indent, finished_text, layout_child, layout_children, layout_items,
    layout_node, lemma_layout_children_grows, lemma_layout_items_grows, lemma_layout_items_head,
    rendered_text, GroupProgress,
};
use crate::model::{Child, Item, Node};
use crate::order::{is_leading_tag, lemma_first_leading_stays_first, sorted_children};
use crate::whitespace::{blank_line_break, line_break, separator};
use vstd::prelude::*;

verus! {

/// The walk over the children of a group before the first child.
pub open spec fn group_start(start: u32) -> GroupProgress {
    GroupProgress { cursor: start, text: Seq::empty(), included: Seq::empty() }
}

/// The version tag is written first: a child with that tag that was added
/// before any other child with a leading tag is the first child in the
/// written order, and the text of the group starts with the text of that
/// child.
///
/// A child with the schema tag that was added before it would be written
/// first instead; the two leading tags are equal in rank.
pub proof fn lemma_version_written_first(
    start: u32,
    children: Seq<Child>,
    indent: nat,
    first_in_scope: bool,
    i: int,
)
    requires
        0 <= i < children.len(),
        children[i].tag == "ASAP2_VERSION"@,
        forall|j: int| 0 <= j < i ==> !is_leading_tag(#[trigger] children[j].tag),
    ensures
        ({
            let written = sorted_children(children);
            let first = layout_child(
                group_start(start),
                children[i],
                layout_node(
                    children[i].node,
                    child_indent(
                        indent,
                        first_in_scope,
                        start,
                        children[i].node.line,
                        children.len(),
                    ),
                ),
                indent,
            );
            &&& written.len() == children.len()
            &&& written[0] == children[i]
            &&& first.text.is_prefix_of(
                layout_children(start, written, indent, first_in_scope, written.len()).text,
            )
        }),
{
    lemma_first_leading_stays_first(children, i);
    let written = sorted_children(children);
    lemma_layout_children_grows(start, written, indent, first_in_scope, 1, written.len());
    assert(layout_children(start, written, indent, first_in_scope, 0) == group_start(start));
}

/// Every block of this document stands between `/begin` and `/end` with the
/// same tag behind both: the text of its group holds, behind the text of the
/// children before it, the separator, `/begin`, the tag, the content of the
/// block, a line break, `/end` and the tag again.
///
/// A block from another file is not written out: it is an include directive
/// or nothing.
pub proof fn lemma_block_markers_match(
    start: u32,
    children: Seq<Child>,
    indent: nat,
    first_in_scope: bool,
    k: int,
)
    requires
        0 <= k < children.len(),
        children[k].is_block,
        children[k].node.file is None,
    ensures
        ({
            let before = layout_children(start, children, indent, first_in_scope, k as nat);
            let child = children[k];
            let body = layout_node(
                child.node,
                child_indent(
                    indent,
                    first_in_scope,
                    before.cursor,
                    child.node.line,
                    children.len(),
                ),
            );
            let block = before.text + separator(before.cursor, child.node.line, indent, true, true)
                + "/begin "@ + child.tag + body.text + line_break(indent) + "/end "@ + child.tag;
            block.is_prefix_of(
                layout_children(start, children, indent, first_in_scope, children.len()).text,
            )
        }),
{
    lemma_layout_children_grows(
        start,
        children,
        indent,
        first_in_scope,
        (k + 1) as nat,
        children.len(),
    );
}

/// The only child of a group that opens its element, on the line where the
/// text so far ends, has its content written at the level of the group.
pub proof fn lemma_only_child_keeps_indent(start: u32, child: Child, indent: nat)
    requires
        child.node.line == start,
    ensures
        layout_children(start, seq![child], indent, true, 1) == layout_child(
            group_start(start),
            child,
            layout_node(child.node, indent),
            indent,
        ),
{
    let children = seq![child];
    assert(layout_children(start, children, indent, true, 0) == group_start(start));
    assert(children[0] == child);
}

/// Every child of a group of two or more has its content written one level
/// deeper than the group.
pub proof fn lemma_siblings_are_indented(
    start: u32,
    children: Seq<Child>,
    indent: nat,
    first_in_scope: bool,
    k: int,
)
    requires
        children.len() >= 2,
        0 <= k < children.len(),
    ensures
        layout_children(start, children, indent, first_in_scope, (k + 1) as nat) == layout_child(
            layout_children(start, children, indent, first_in_scope, k as nat),
            children[k],
            layout_node(children[k].node, indent + 1),
            indent,
        ),
{
}

/// Space, tab, line feed, vertical tab, form feed and carriage return.
pub open spec fn is_whitespace(c: char) -> bool {
    c == ' ' || c == '\t' || c == '\n' || c == '\u{b}' || c == '\u{c}' || c == '\r'
}

/// Whether `text` starts with a character that is no whitespace.
pub open spec fn starts_with_token(text: Seq<char>) -> bool {
    text.len() > 0 && !is_whitespace(text[0])
}

/// Whether an entry puts anything into the text: a piece of text does, and
/// so does a group with a child.
pub open spec fn writes_text(item: Item) -> bool {
    match item {
        Item::Text { .. } => true,
        Item::Group { children } => children.len() > 0,
        Item::Break => false,
    }
}

/// The first entry at or behind `from` that writes text; the number of
/// entries if there is none.
pub open spec fn first_written(items: Seq<Item>, from: nat) -> nat
    decreases items.len() - from,
{
    if from >= items.len() {
        items.len()
    } else if writes_text(items[from as int]) {
        from
    } else {
        first_written(items, from + 1)
    }
}

/// Whether the first thing that an arranged element writes is one separator
/// character and then a token:
/// - a piece of text that starts with a token, or
/// - a group whose first child comes from another file, or
/// - a group whose first child is not set off by an empty line, and is a
///   block or has a tag that starts with a token.
pub open spec fn opens_with_token(node: Node) -> bool {
    let at = first_written(node.items, 0);
    at < node.items.len() && match node.items[at as int] {
        Item::Text { line, text } => starts_with_token(text),
        Item::Group { children } => {
            let child = children[0];
            child.node.file is Some || (separator(
                node.line,
                child.node.line,
                0,
                true,
                child.is_block,
            ).len() == 1 && (child.is_block || starts_with_token(child.tag)))
        },
        Item::Break => false,
    }
}

/// [`first_written`] is the first entry that writes text.
pub proof fn lemma_first_written(items: Seq<Item>, from: nat)
    requires
        from <= items.len(),
    ensures
        from <= first_written(items, from) <= items.len(),
        first_written(items, from) < items.len() ==> writes_text(
            items[first_written(items, from) as int],
        ),
        forall|j: int| from <= j < first_written(items, from) ==> !writes_text(#[trigger] items[j]),
    decreases items.len() - from,
{
    if from < items.len() && !writes_text(items[from as int]) {
        lemma_first_written(items, from + 1);
    }
}

/// Up to the first entry that writes text the text is empty, and the walk
/// is still on the line of the element.
pub proof fn lemma_silent_entries(line: u32, items: Seq<Item>, indent: nat, n: nat)
    requires
        n <= first_written(items, 0),
    ensures
        layout_items(line, items, indent, n).text == Seq::<char>::empty(),
        layout_items(line, items, indent, n).cursor == line,
    decreases n,
{
    lemma_first_written(items, 0);
    if n > 0 {
        lemma_silent_entries(line, items, indent, (n - 1) as nat);
        assert(!writes_text(items[n - 1]));
        match items[n - 1] {
            Item::Group { children } => {
                let before = layout_items(line, items, indent, (n - 1) as nat);
                assert(layout_children(before.cursor, children, indent, n == 1, 0).text
                    =~= Seq::<char>::empty());
                assert(layout_items(line, items, indent, n).text =~= Seq::<char>::empty());
            },
            _ => {},
        }
    }
}

/// The text of a group with a child starts with its first child: behind one
/// separator character comes a token if and only if the child is from
/// another file, or is not set off by an empty line and is a block or has a
/// tag that starts with a token. Otherwise a second character, if there is
/// one, is whitespace.
proof fn lemma_group_opening(start: u32, children: Seq<Child>, first_in_scope: bool)
    requires
        children.len() > 0,
    ensures
        ({
            let text = layout_children(start, children, 0, first_in_scope, children.len()).text;
            let child = children[0];
            let token = child.node.file is Some || (separator(
                start,
                child.node.line,
                0,
                true,
                child.is_block,
            ).len() == 1 && (child.is_block || starts_with_token(child.tag)));
            &&& text.len() > 0
            &&& token ==> text.len() > 1 && !is_whitespace(text[1])
            &&& !token && text.len() > 1 ==> is_whitespace(text[1])
        }),
{
    let whole = layout_children(start, children, 0, first_in_scope, children.len()).text;
    let child = children[0];
    let inner = child_indent(0, first_in_scope, start, child.node.line, children.len());
    let body = layout_node(child.node, inner);
    let first = layout_children(start, children, 0, first_in_scope, 1).text;
    assert(layout_children(start, children, 0, first_in_scope, 0) == group_start(start));
    assert(first == layout_child(group_start(start), child, body, 0).text);
    lemma_layout_children_grows(start, children, 0, first_in_scope, 1, children.len());
    lemma_layout_items_head(child.node.line, child.node.items, inner, child.node.items.len());
    reveal_strlit("/include \"");
    reveal_strlit("/begin ");
    assert(line_break(0) =~= seq!['\n']);
    assert(blank_line_break(0) =~= seq!['\n', '\n']);
    let lead = separator(start, child.node.line, 0, true, child.is_block);
    match child.node.file {
        Some(path) => {
            assert(first =~= seq!['\n'] + "/include \""@ + path + "\""@);
            assert(first[1] == '/');
            assert(whole[1] == first[1]);
        },
        None => {
            if lead.len() != 1 {
                assert(first[1] == '\n');
                assert(whole[1] == first[1]);
            } else if child.is_block {
                assert(first[1] == '/');
                assert(whole[1] == first[1]);
            } else if child.tag.len() > 0 {
                assert(first[1] == child.tag[0]);
                assert(whole[1] == first[1]);
            } else if body.text.len() > 0 {
                assert(first =~= lead + body.text);
                assert(first[1] == body.text[0]);
                assert(whole[1] == first[1]);
            } else {
                assert(first =~= lead);
                if whole.len() > 1 {
                    assert(whole[1] == whole.skip(1)[0]);
                }
            }
        },
    }
}

/// The text of an arranged element from its first character on: behind one
/// separator character comes a token if [`opens_with_token`] holds, and else
/// whitespace or nothing.
proof fn lemma_node_opening(node: Node)
    ensures
        ({
            let text = layout_node(node, 0).text;
            &&& opens_with_token(node) ==> text.len() > 1 && !is_whitespace(text[1])
            &&& !opens_with_token(node) && text.len() > 1 ==> is_whitespace(text[1])
        }),
{
    let items = node.items;
    let at = first_written(items, 0);
    let whole = layout_items(node.line, items, 0, items.len()).text;
    lemma_first_written(items, 0);
    lemma_silent_entries(node.line, items, 0, at);
    if at < items.len() {
        let before = layout_items(node.line, items, 0, at);
        let first = layout_items(node.line, items, 0, at + 1).text;
        lemma_layout_items_grows(node.line, items, 0, at + 1, items.len());
        assert(line_break(0) =~= seq!['\n']);
        match items[at as int] {
            Item::Text { line, text } => {
                let lead = separator(before.cursor, line, 0, before.pending_break, false);
                assert(first =~= lead + text);
                if text.len() > 0 {
                    assert(first[1] == text[0]);
                    assert(whole[1] == first[1]);
                } else if whole.len() > 1 {
                    assert(whole[1] == whole.skip(1)[0]);
                }
            },
            Item::Group { children } => {
                lemma_group_opening(node.line, children, at + 1 == 1);
                let group = layout_children(node.line, children, 0, at + 1 == 1, children.len());
                assert(first =~= group.text);
                if first.len() > 1 {
                    assert(whole[1] == first[1]);
                } else if whole.len() > 1 {
                    assert(whole[1] == whole.skip(1)[0]);
                }
            },
            Item::Break => {},
        }
    }
}

/// The finished text does not begin with whitespace, if the tree renders to
/// at most the one separator that is dropped, or if the first thing written
/// is one separator character and then a token.
pub proof fn lemma_finished_text_starts_with_token(root: Node)
    requires
        rendered_text(root).len() <= 1 || opens_with_token(arranged(root)),
    ensures
        finished_text(root).len() == 0 || !is_whitespace(finished_text(root)[0]),
{
    lemma_node_opening(arranged(root));
}

/// On every other tree the finished text begins with whitespace: where the
/// first thing written is set off by an empty line, or where the first
/// token is empty or itself begins with whitespace.
pub proof fn lemma_finished_text_starts_with_whitespace(root: Node)
    requires
        rendered_text(root).len() > 1,
        !opens_with_token(arranged(root)),
    ensures
        finished_text(root).len() > 0,
        is_whitespace(finished_text(root)[0]),
{
    lemma_node_opening(arranged(root));
}

} // verus!
