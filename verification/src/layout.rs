//! What a tree of tagged elements looks like as text.
//!
//! Rendering has two steps. [`arranged`] puts the children of every group
//! into the order in which they are written. [`layout_node`] then walks the
//! arranged tree and places every token on its line.
use crate::model::{Child, Item, Node};
use crate::order::{sort_key, sorted_children};
use crate::whitespace::{
    lemma_separator_clamped, lemma_separator_head, line_break, next_line, separator,
};
use vstd::prelude::*;

verus! {

/// The text of an element and the line on which it ends.
pub struct Rendered {
    pub line: u32,
    pub text: Seq<char>,
}

/// The state of the walk over the entries of an element.
pub struct Progress {
    /// The line on which the text so far ends.
    pub cursor: u32,
    /// Whether a break marker was seen since the last piece of text.
    pub pending_break: bool,
    /// The text so far.
    pub text: Seq<char>,
}

/// The state of the walk over the children of a group.
pub struct GroupProgress {
    /// The line on which the text so far ends.
    pub cursor: u32,
    /// The text so far.
    pub text: Seq<char>,
    /// The files that an include directive was written for, first to last.
    pub included: Seq<Seq<char>>,
}

/// The tree with the children of every group in their written order.
pub open spec fn arranged(node: Node) -> Node
    decreases node,
{
    Node {
        items: Seq::new(
            node.items.len(),
            |i: int|
                if 0 <= i < node.items.len() {
                    arranged_item(node.items[i])
                } else {
                    Item::Break
                },
        ),
        ..node
    }
}

/// One entry with the children of every group in it in their written order.
pub open spec fn arranged_item(item: Item) -> Item
    decreases item,
{
    match item {
        Item::Group { children } => Item::Group {
            children: sorted_children(arranged_children(children)),
        },
        _ => item,
    }
}

/// The children in the order given, each arranged inside.
pub open spec fn arranged_children(children: Seq<Child>) -> Seq<Child>
    decreases children,
{
    Seq::new(
        children.len(),
        |i: int|
            if 0 <= i < children.len() {
                arranged_child(children[i])
            } else {
                children[i]
            },
    )
}

/// A child with the tree below it arranged.
pub open spec fn arranged_child(child: Child) -> Child
    decreases child,
{
    Child { node: arranged(child.node), ..child }
}

/// The nesting level at which the content of a child is written: one deeper
/// than its group, except for the only child of a group that opens its
/// element and sits on the line where the text so far ends.
pub open spec fn child_indent(
    indent: nat,
    first_in_scope: bool,
    cursor: u32,
    child_line: u32,
    siblings: nat,
) -> nat {
    if first_in_scope && cursor == child_line && siblings == 1 {
        indent
    } else {
        indent + 1
    }
}

/// The directive that stands for all children that come from `path`.
pub open spec fn include_directive(path: Seq<char>, indent: nat) -> Seq<char> {
    line_break(indent) + "/include \""@ + path + "\""@
}

/// The text of the entries of `node`, written at nesting level `indent`
/// with the children of each group in the order given.
pub open spec fn layout_node(node: Node, indent: nat) -> Rendered
    decreases node, 0nat,
{
    let done = layout_items(node.line, node.items, indent, node.items.len());
    Rendered { line: done.cursor, text: done.text }
}

/// The walk after the first `n` of `items`, for an element on line `line`.
///
/// - Text follows the separator that its line asks for.
/// - A break marker is remembered for the next piece of text.
/// - A group adds the text of its children; it opens the element if it is
///   the first entry.
pub open spec fn layout_items(line: u32, items: Seq<Item>, indent: nat, n: nat) -> Progress
    decreases items, n,
{
    if n == 0 || n > items.len() {
        Progress { cursor: line, pending_break: false, text: Seq::empty() }
    } else {
        let before = layout_items(line, items, indent, (n - 1) as nat);
        match items[n - 1] {
            Item::Text { line: item_line, text } => Progress {
                cursor: item_line,
                pending_break: false,
                text: before.text + separator(
                    before.cursor,
                    item_line,
                    indent,
                    before.pending_break,
                    false,
                ) + text,
            },
            Item::Break => Progress { pending_break: true, ..before },
            Item::Group { children } => {
                let group = layout_children(
                    before.cursor,
                    children,
                    indent,
                    n == 1,
                    children.len(),
                );
                Progress { cursor: group.cursor, text: before.text + group.text, ..before }
            },
        }
    }
}

/// The walk after the first `n` of `children`, for a group that starts on
/// line `start`.
pub open spec fn layout_children(
    start: u32,
    children: Seq<Child>,
    indent: nat,
    first_in_scope: bool,
    n: nat,
) -> GroupProgress
    decreases children, n,
{
    if n == 0 || n > children.len() {
        GroupProgress { cursor: start, text: Seq::empty(), included: Seq::empty() }
    } else {
        let before = layout_children(start, children, indent, first_in_scope, (n - 1) as nat);
        let child = children[n - 1];
        let body = layout_node(
            child.node,
            child_indent(indent, first_in_scope, before.cursor, child.node.line, children.len()),
        );
        layout_child(before, child, body, indent)
    }
}

/// The walk after one more child, whose content is `body`.
///
/// - A child of this document follows the separator that its line asks for.
///   A block stands between `/begin TAG` and, on a line of its own,
///   `/end TAG`, and ends one line after its content. Any other child is its
///   tag and its content.
/// - A child from another file is an include directive on a line of its own,
///   if it is the first child from that file in its group; else it is
///   nothing.
pub open spec fn layout_child(
    before: GroupProgress,
    child: Child,
    body: Rendered,
    indent: nat,
) -> GroupProgress {
    match child.node.file {
        Some(path) => if before.included.contains(path) {
            before
        } else {
            GroupProgress {
                cursor: next_line(before.cursor),
                text: before.text + include_directive(path, indent),
                included: before.included.push(path),
            }
        },
        None => {
            let lead = separator(before.cursor, child.node.line, indent, true, child.is_block);
            if child.is_block {
                GroupProgress {
                    cursor: next_line(body.line),
                    text: before.text + lead + "/begin "@ + child.tag + body.text + line_break(
                        indent,
                    ) + "/end "@ + child.tag,
                    ..before
                }
            } else {
                GroupProgress {
                    cursor: body.line,
                    text: before.text + lead + child.tag + body.text,
                    ..before
                }
            }
        },
    }
}

/// The text of the whole tree under `root`: every group in its written
/// order, laid out from nesting level 0.
pub open spec fn rendered_text(root: Node) -> Seq<char> {
    layout_node(arranged(root), 0).text
}

/// The finished document: [`rendered_text`] without its first character,
/// which is the separator in front of the first token.
pub open spec fn finished_text(root: Node) -> Seq<char> {
    let text = rendered_text(root);
    if text.len() == 0 {
        text
    } else {
        text.drop_first()
    }
}

/// Arranging keeps the line, the file and the key of a child.
pub proof fn lemma_arranged_child_key(child: Child)
    ensures
        sort_key(arranged_child(child)) == sort_key(child),
        arranged_child(child).node.line == child.node.line,
        arranged_child(child).node.file == child.node.file,
        arranged_child(child).tag == child.tag,
        arranged_child(child).is_block == child.is_block,
{
}

/// Beyond the widest indentation the text of an element is the same at
/// every nesting level.
pub proof fn lemma_layout_node_clamped(node: Node, a: nat, b: nat)
    requires
        a >= 60,
        b >= 60,
    ensures
        layout_node(node, a) == layout_node(node, b),
    decreases node, 0nat,
{
    lemma_layout_items_clamped(node.line, node.items, a, b, node.items.len());
}

/// [`lemma_layout_node_clamped`] for the walk over entries.
pub proof fn lemma_layout_items_clamped(line: u32, items: Seq<Item>, a: nat, b: nat, n: nat)
    requires
        a >= 60,
        b >= 60,
    ensures
        layout_items(line, items, a, n) == layout_items(line, items, b, n),
    decreases items, n,
{
    if !(n == 0 || n > items.len()) {
        lemma_layout_items_clamped(line, items, a, b, (n - 1) as nat);
        let before = layout_items(line, items, a, (n - 1) as nat);
        match items[n - 1] {
            Item::Text { line: item_line, text } => {
                lemma_separator_clamped(
                    before.cursor,
                    item_line,
                    a,
                    b,
                    before.pending_break,
                    false,
                );
            },
            Item::Break => {},
            Item::Group { children } => {
                lemma_layout_children_clamped(
                    before.cursor,
                    children,
                    a,
                    b,
                    n == 1,
                    children.len(),
                );
            },
        }
    }
}

/// [`lemma_layout_node_clamped`] for the walk over children.
pub proof fn lemma_layout_children_clamped(
    start: u32,
    children: Seq<Child>,
    a: nat,
    b: nat,
    first_in_scope: bool,
    n: nat,
)
    requires
        a >= 60,
        b >= 60,
    ensures
        layout_children(start, children, a, first_in_scope, n) == layout_children(
            start,
            children,
            b,
            first_in_scope,
            n,
        ),
    decreases children, n,
{
    if !(n == 0 || n > children.len()) {
        lemma_layout_children_clamped(start, children, a, b, first_in_scope, (n - 1) as nat);
        let before = layout_children(start, children, a, first_in_scope, (n - 1) as nat);
        let child = children[n - 1];
        let siblings = children.len();
        if child.node.file is None {
            lemma_layout_node_clamped(
                child.node,
                child_indent(a, first_in_scope, before.cursor, child.node.line, siblings),
                child_indent(b, first_in_scope, before.cursor, child.node.line, siblings),
            );
            lemma_separator_clamped(before.cursor, child.node.line, a, b, true, child.is_block);
        }
    }
}

/// No file gets a second include directive in one group.
pub proof fn lemma_included_once(
    start: u32,
    children: Seq<Child>,
    indent: nat,
    first_in_scope: bool,
    n: nat,
)
    ensures
        layout_children(start, children, indent, first_in_scope, n).included.no_duplicates(),
    decreases n,
{
    if !(n == 0 || n > children.len()) {
        lemma_included_once(start, children, indent, first_in_scope, (n - 1) as nat);
    }
}

/// Whether `text` is empty or starts with a space or a line break.
pub open spec fn starts_with_separator(text: Seq<char>) -> bool {
    text.len() == 0 || text[0] == ' ' || text[0] == '\n'
}

/// One more child adds nothing to the text of its group, or something that
/// starts with a separator.
pub proof fn lemma_layout_child_adds(
    before: GroupProgress,
    child: Child,
    body: Rendered,
    indent: nat,
)
    ensures
        before.text.is_prefix_of(layout_child(before, child, body, indent).text),
        starts_with_separator(
            layout_child(before, child, body, indent).text.skip(before.text.len() as int),
        ),
{
    let after = layout_child(before, child, body, indent).text;
    lemma_separator_head(before.cursor, child.node.line, indent, true, child.is_block);
    match child.node.file {
        Some(path) => {
            if !before.included.contains(path) {
                assert(after.skip(before.text.len() as int)[0] == line_break(indent)[0]);
            }
        },
        None => {
            let lead = separator(before.cursor, child.node.line, indent, true, child.is_block);
            assert(after.skip(before.text.len() as int)[0] == lead[0]);
        },
    }
}

/// The text of a group only grows from child to child, and what is added
/// starts with a separator.
pub proof fn lemma_layout_children_grows(
    start: u32,
    children: Seq<Child>,
    indent: nat,
    first_in_scope: bool,
    m: nat,
    n: nat,
)
    requires
        m <= n <= children.len(),
    ensures
        layout_children(start, children, indent, first_in_scope, m).text.is_prefix_of(
            layout_children(start, children, indent, first_in_scope, n).text,
        ),
        starts_with_separator(
            layout_children(start, children, indent, first_in_scope, n).text.skip(
                layout_children(start, children, indent, first_in_scope, m).text.len() as int,
            ),
        ),
    decreases n,
{
    if m < n {
        lemma_layout_children_grows(start, children, indent, first_in_scope, m, (n - 1) as nat);
        let first = layout_children(start, children, indent, first_in_scope, m).text;
        let before = layout_children(start, children, indent, first_in_scope, (n - 1) as nat);
        let child = children[n - 1];
        let body = layout_node(
            child.node,
            child_indent(indent, first_in_scope, before.cursor, child.node.line, children.len()),
        );
        lemma_layout_child_adds(before, child, body, indent);
        let after = layout_child(before, child, body, indent).text;
        lemma_tail_of_longer(first, before.text, after);
    }
}

/// If `b` continues `a`, and `c` continues `b`, each by nothing or by
/// something that starts with a separator, then so does `c` continue `a`.
pub proof fn lemma_tail_of_longer(a: Seq<char>, b: Seq<char>, c: Seq<char>)
    requires
        a.is_prefix_of(b),
        b.is_prefix_of(c),
        starts_with_separator(b.skip(a.len() as int)),
        starts_with_separator(c.skip(b.len() as int)),
    ensures
        a.is_prefix_of(c),
        starts_with_separator(c.skip(a.len() as int)),
{
    if a.len() < b.len() {
        assert(c.skip(a.len() as int)[0] == b.skip(a.len() as int)[0]);
    } else if b.len() < c.len() {
        assert(c.skip(a.len() as int)[0] == c.skip(b.len() as int)[0]);
    }
}

/// The text of the entries only grows from entry to entry, and what is
/// added starts with a separator.
pub proof fn lemma_layout_items_grows(line: u32, items: Seq<Item>, indent: nat, m: nat, n: nat)
    requires
        m <= n <= items.len(),
    ensures
        layout_items(line, items, indent, m).text.is_prefix_of(
            layout_items(line, items, indent, n).text,
        ),
        starts_with_separator(
            layout_items(line, items, indent, n).text.skip(
                layout_items(line, items, indent, m).text.len() as int,
            ),
        ),
    decreases n,
{
    if m < n {
        lemma_layout_items_grows(line, items, indent, m, (n - 1) as nat);
        let first = layout_items(line, items, indent, m).text;
        let before = layout_items(line, items, indent, (n - 1) as nat);
        let after = layout_items(line, items, indent, n).text;
        match items[n - 1] {
            Item::Text { line: item_line, text } => {
                lemma_separator_head(
                    before.cursor,
                    item_line,
                    indent,
                    before.pending_break,
                    false,
                );
                let lead = separator(
                    before.cursor,
                    item_line,
                    indent,
                    before.pending_break,
                    false,
                );
                assert(after.skip(before.text.len() as int)[0] == lead[0]);
            },
            Item::Break => {},
            Item::Group { children } => {
                let group = layout_children(
                    before.cursor,
                    children,
                    indent,
                    n == 1,
                    children.len(),
                );
                lemma_layout_children_head(
                    before.cursor,
                    children,
                    indent,
                    n == 1,
                    children.len(),
                );
                if group.text.len() > 0 {
                    assert(after.skip(before.text.len() as int)[0] == group.text[0]);
                }
            },
        }
        lemma_tail_of_longer(first, before.text, after);
    }
}

/// The text of a group is empty or starts with a separator.
pub proof fn lemma_layout_children_head(
    start: u32,
    children: Seq<Child>,
    indent: nat,
    first_in_scope: bool,
    n: nat,
)
    ensures
        starts_with_separator(layout_children(start, children, indent, first_in_scope, n).text),
    decreases n,
{
    if !(n == 0 || n > children.len()) {
        let before = layout_children(start, children, indent, first_in_scope, (n - 1) as nat);
        let child = children[n - 1];
        lemma_layout_children_head(start, children, indent, first_in_scope, (n - 1) as nat);
        lemma_separator_head(before.cursor, child.node.line, indent, true, child.is_block);
    }
}

/// The text of the entries of an element is empty or starts with a
/// separator.
pub proof fn lemma_layout_items_head(line: u32, items: Seq<Item>, indent: nat, n: nat)
    ensures
        starts_with_separator(layout_items(line, items, indent, n).text),
    decreases n,
{
    if !(n == 0 || n > items.len()) {
        let before = layout_items(line, items, indent, (n - 1) as nat);
        lemma_layout_items_head(line, items, indent, (n - 1) as nat);
        match items[n - 1] {
            Item::Text { line: item_line, text } => {
                lemma_separator_head(
                    before.cursor,
                    item_line,
                    indent,
                    before.pending_break,
                    false,
                );
            },
            Item::Break => {},
            Item::Group { children } => {
                lemma_layout_children_head(
                    before.cursor,
                    children,
                    indent,
                    n == 1,
                    children.len(),
                );
            },
        }
    }
}

/// What [`finished_text`] drops is a space or a line break.
pub proof fn lemma_rendered_text_head(root: Node)
    ensures
        starts_with_separator(rendered_text(root)),
{
    let node = arranged(root);
    lemma_layout_items_head(node.line, node.items, 0, node.items.len());
}

} // verus!
