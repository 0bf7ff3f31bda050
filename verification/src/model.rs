//! The mathematical model of a tree of tagged elements.
//!
//! Contracts speak of these values; [`crate::writer::Writer`] is the
//! executable tree whose view is a [`Node`].
use vstd::prelude::*;

verus! {

/// An element of the tree: the line it came from, the file it came from if
/// that is another file than the one being written, and what it holds.
pub struct Node {
    /// `None` for an element of the document being written, else the path of
    /// the file that the element was read from.
    pub file: Option<Seq<char>>,
    /// Line of the element in its source; 0 for an element made at run time.
    pub line: u32,
    /// What the element holds, in the order in which it was added.
    pub items: Seq<Item>,
}

/// One entry of a [`Node`].
pub enum Item {
    /// A piece of finished text with the line that it belongs on.
    Text { line: u32, text: Seq<char> },
    /// Tagged child elements, in the order in which they were added.
    Group { children: Seq<Child> },
    /// The next text starts a new section, even on the same line.
    Break,
}

/// A tagged child element of a group.
pub struct Child {
    pub tag: Seq<char>,
    pub node: Node,
    /// A block is written between `/begin TAG` and `/end TAG`.
    pub is_block: bool,
}

impl Node {
    /// An element without content.
    pub open spec fn empty(file: Option<Seq<char>>, line: u32) -> Node {
        Node { file, line, items: Seq::empty() }
    }

    /// This element with `item` added at the end.
    pub open spec fn with_item(self, item: Item) -> Node {
        Node { items: self.items.push(item), ..self }
    }

    /// Whether entry `index` is a group.
    pub open spec fn has_group_at(self, index: int) -> bool {
        0 <= index < self.items.len() && self.items[index] is Group
    }

    /// This element with `child` added at the end of the group that is its
    /// entry `index`.
    pub open spec fn with_child(self, index: int, child: Child) -> Node
        recommends
            self.has_group_at(index),
    {
        Node {
            items: self.items.update(
                index,
                Item::Group { children: self.items[index]->children.push(child) },
            ),
            ..self
        }
    }

    /// How many levels of elements are nested inside this one.
    pub open spec fn depth(self) -> nat
        decreases self,
    {
        items_depth(self.items, self.items.len())
    }
}

/// The largest depth under the first `n` entries of `items`.
pub open spec fn items_depth(items: Seq<Item>, n: nat) -> nat
    decreases items, n,
{
    if n == 0 || n > items.len() {
        0
    } else {
        let before = items_depth(items, (n - 1) as nat);
        let here = item_depth(items[n - 1]);
        if before < here {
            here
        } else {
            before
        }
    }
}

/// The depth under one entry: that of its children, if it is a group.
pub open spec fn item_depth(item: Item) -> nat
    decreases item,
{
    match item {
        Item::Group { children } => children_depth(children, children.len()),
        _ => 0,
    }
}

/// One more than the largest depth among the first `n` of `children`.
pub open spec fn children_depth(children: Seq<Child>, n: nat) -> nat
    decreases children, n,
{
    if n == 0 || n > children.len() {
        0
    } else {
        let before = children_depth(children, (n - 1) as nat);
        let here = children[n - 1].node.depth() + 1;
        if before < here {
            here
        } else {
            before
        }
    }
}

/// Every entry among the first `n` is at most as deep as [`items_depth`].
pub proof fn lemma_items_depth_bound(items: Seq<Item>, n: nat, i: int)
    requires
        0 <= i < n <= items.len(),
    ensures
        item_depth(items[i]) <= items_depth(items, n),
    decreases n,
{
    if i < n - 1 {
        lemma_items_depth_bound(items, (n - 1) as nat, i);
    }
}

/// Every child among the first `n` is less deep than [`children_depth`].
pub proof fn lemma_children_depth_bound(children: Seq<Child>, n: nat, i: int)
    requires
        0 <= i < n <= children.len(),
    ensures
        children[i].node.depth() < children_depth(children, n),
    decreases n,
{
    if i < n - 1 {
        lemma_children_depth_bound(children, (n - 1) as nat, i);
    }
}

/// [`children_depth`] is the least bound above the depth of every child.
pub proof fn lemma_children_depth_least(children: Seq<Child>, n: nat, bound: nat)
    requires
        n <= children.len(),
        forall|i: int| 0 <= i < n ==> (#[trigger] children[i]).node.depth() < bound,
    ensures
        children_depth(children, n) <= bound,
    decreases n,
{
    if n > 0 {
        lemma_children_depth_least(children, (n - 1) as nat, bound);
    }
}

} // verus!
